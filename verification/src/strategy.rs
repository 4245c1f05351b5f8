//! The central piece-selection strategy: rarest-first ordering with endgame
//! duplication.
//!
//! One owner tracks, per peer, which pieces that peer advertises; per piece,
//! how many peers have it, which pieces are in progress and which are
//! complete; and whether endgame is engaged.  All mutation goes through
//! messages, so the owner serialises every change.

use crate::utils::PeerAddr;
use vstd::prelude::*;

verus! {

/// Error of the strategy: a peer bitfield whose length does not match the
/// piece count.
#[derive(Debug, PartialEq, Eq, Structural, Clone, Copy)]
pub enum StrategyError {
    MalformedBitfield,
}

struct PeerEntry {
    addr: PeerAddr,
    bits: Vec<bool>,
}

/// Count of entries whose bit `i` is set.
spec fn spec_count_having(entries: Seq<PeerEntry>, i: int) -> int
    decreases entries.len(),
{
    if entries.len() == 0 {
        0
    } else {
        spec_count_having(entries.drop_last(), i) + if entries.last().bits@[i] {
            1int
        } else {
            0int
        }
    }
}

proof fn lemma_count_having_take_succ(entries: Seq<PeerEntry>, k: int, i: int)
    requires
        0 <= k < entries.len(),
    ensures
        spec_count_having(entries.take(k + 1), i) == spec_count_having(entries.take(k), i) + if
            entries[k].bits@[i] {
            1int
        } else {
            0int
        },
{
    assert(entries.take(k + 1).drop_last() =~= entries.take(k));
    assert(entries.take(k + 1).last() == entries[k]);
}

/// The piece-selection authority.
pub struct Strategy {
    peer_bitfield_map: Vec<PeerEntry>,
    num_pieces: usize,
    piece_multiplicities: Vec<usize>,
    in_progress: Vec<bool>,
    downloaded: Vec<bool>,
    endgame_mode: bool,
}

impl Strategy {
    /// Number of pieces the strategy tracks.
    pub closed spec fn spec_num_pieces(&self) -> int {
        self.num_pieces as int
    }

    /// Whether a peer with this address is in the availability map.
    pub closed spec fn knows_peer(&self, addr: PeerAddr) -> bool {
        exists|k: int|
            0 <= k < self.peer_bitfield_map@.len() && (#[trigger] self.peer_bitfield_map@[k]).addr
                == addr
    }

    /// Index of a known peer's entry.
    closed spec fn idx_of(&self, addr: PeerAddr) -> int {
        choose|k: int|
            0 <= k < self.peer_bitfield_map@.len() && (#[trigger] self.peer_bitfield_map@[k]).addr
                == addr
    }

    /// The availability bits a known peer advertises.
    pub closed spec fn peer_bits(&self, addr: PeerAddr) -> Seq<bool> {
        self.peer_bitfield_map@[self.idx_of(addr)].bits@
    }

    /// Whether a known peer advertises piece `i`.
    pub open spec fn peer_has(&self, addr: PeerAddr, i: int) -> bool {
        self.peer_bits(addr)[i]
    }

    /// The in-progress bit of each piece.
    pub closed spec fn in_progress(&self) -> Seq<bool> {
        self.in_progress@
    }

    /// The completed bit of each piece.
    pub closed spec fn downloaded(&self) -> Seq<bool> {
        self.downloaded@
    }

    /// Whether endgame duplication is engaged.
    pub closed spec fn endgame(&self) -> bool {
        self.endgame_mode
    }

    /// How many known peers advertise piece `i`.
    pub closed spec fn multiplicity(&self, i: int) -> int {
        self.piece_multiplicities@[i] as int
    }

    /// Internal consistency: per-piece vectors sized to the piece count,
    /// every peer bitfield full length, peer addresses unique, the
    /// multiplicity cache exact, and no completed piece still in progress.
    pub closed spec fn wf(&self) -> bool {
        &&& self.piece_multiplicities@.len() == self.num_pieces
        &&& self.in_progress@.len() == self.num_pieces
        &&& self.downloaded@.len() == self.num_pieces
        &&& (forall|k: int|
            0 <= k < self.peer_bitfield_map@.len() ==> (#[trigger] self.peer_bitfield_map@[k]).bits@.len()
                == self.num_pieces)
        &&& (forall|k: int, l: int|
            0 <= k < l < self.peer_bitfield_map@.len() ==> (#[trigger] self.peer_bitfield_map@[k]).addr
                != (#[trigger] self.peer_bitfield_map@[l]).addr)
        &&& (forall|i: int|
            0 <= i < self.num_pieces ==> self.piece_multiplicities@[i] == spec_count_having(
                self.peer_bitfield_map@,
                i,
            ))
        &&& (forall|i: int|
            0 <= i < self.num_pieces ==> (#[trigger] self.downloaded@[i]
                ==> !self.in_progress@[i]))
    }

    /// Piece `i` may be assigned to this peer: the peer has it, it is not
    /// complete, and, outside endgame, it is not already in progress.
    pub open spec fn qualifies(&self, addr: PeerAddr, i: int) -> bool {
        &&& 0 <= i < self.spec_num_pieces()
        &&& self.peer_has(addr, i)
        &&& !self.downloaded()[i]
        &&& (self.endgame() || !self.in_progress()[i])
    }

    /// The per-piece state and the piece count agree between two strategy
    /// values.
    pub open spec fn pieces_state_eq(&self, other: &Strategy) -> bool {
        &&& other.spec_num_pieces() == self.spec_num_pieces()
        &&& other.in_progress() == self.in_progress()
        &&& other.downloaded() == self.downloaded()
        &&& other.endgame() == self.endgame()
    }

    /// The availability map agrees between two strategy values for every
    /// address but `addr`.
    pub open spec fn peers_eq_except(&self, other: &Strategy, addr: PeerAddr) -> bool {
        forall|p: PeerAddr|
            p != addr ==> #[trigger] other.knows_peer(p) == self.knows_peer(p) && (self.knows_peer(
                p,
            ) ==> other.peer_bits(p) == self.peer_bits(p))
    }

    /// The availability map agrees between two strategy values everywhere.
    pub open spec fn peers_eq(&self, other: &Strategy) -> bool {
        forall|p: PeerAddr|
            #[trigger] other.knows_peer(p) == self.knows_peer(p) && (self.knows_peer(p)
                ==> other.peer_bits(p) == self.peer_bits(p))
    }

    /// A strategy for `num_pieces` pieces with no peers, nothing in
    /// progress, nothing complete, and endgame off.
    pub fn new(num_pieces: usize) -> (r: Strategy)
        ensures
            r.wf(),
            r.spec_num_pieces() == num_pieces,
            forall|p: PeerAddr| !r.knows_peer(p),
            forall|i: int| 0 <= i < num_pieces ==> !r.in_progress()[i],
            forall|i: int| 0 <= i < num_pieces ==> !r.downloaded()[i],
            !r.endgame(),
    {
        let mut mult: Vec<usize> = Vec::new();
        let mut prog: Vec<bool> = Vec::new();
        let mut down: Vec<bool> = Vec::new();
        let mut k: usize = 0;
        while k < num_pieces
            invariant
                k <= num_pieces,
                mult@.len() == k,
                prog@.len() == k,
                down@.len() == k,
                forall|i: int| 0 <= i < k ==> mult@[i] == 0,
                forall|i: int| 0 <= i < k ==> !prog@[i],
                forall|i: int| 0 <= i < k ==> !down@[i],
            decreases num_pieces - k,
        {
            mult.push(0);
            prog.push(false);
            down.push(false);
            k = k + 1;
        }
        Strategy {
            peer_bitfield_map: Vec::new(),
            num_pieces,
            piece_multiplicities: mult,
            in_progress: prog,
            downloaded: down,
            endgame_mode: false,
        }
    }

    /// Rebuilds the multiplicity cache: column sums over the peer bitfields.
    fn update_multiplicities(&mut self)
        requires
            forall|k: int|
                0 <= k < old(self).peer_bitfield_map@.len() ==> (#[trigger] old(
                    self,
                ).peer_bitfield_map@[k]).bits@.len() == old(self).num_pieces,
        ensures
            final(self).peer_bitfield_map@ == old(self).peer_bitfield_map@,
            final(self).num_pieces == old(self).num_pieces,
            final(self).in_progress@ == old(self).in_progress@,
            final(self).downloaded@ == old(self).downloaded@,
            final(self).endgame_mode == old(self).endgame_mode,
            final(self).piece_multiplicities@.len() == old(self).num_pieces,
            forall|i: int|
                0 <= i < old(self).num_pieces ==> final(self).piece_multiplicities@[i]
                    == spec_count_having(old(self).peer_bitfield_map@, i),
    {
        let np = self.num_pieces;
        let mut mult: Vec<usize> = Vec::new();
        let mut i: usize = 0;
        while i < np
            invariant
                i <= np,
                np == self.num_pieces,
                mult@.len() == i,
                forall|k: int|
                    0 <= k < self.peer_bitfield_map@.len() ==> (#[trigger] self.peer_bitfield_map@[k]).bits@.len()
                        == np,
                forall|j: int|
                    0 <= j < i ==> mult@[j] == spec_count_having(self.peer_bitfield_map@, j),
            decreases np - i,
        {
            let entries = &self.peer_bitfield_map;
            let mut c: usize = 0;
            let mut k: usize = 0;
            proof {
                assert(entries@.take(0) =~= Seq::<PeerEntry>::empty());
            }
            while k < entries.len()
                invariant
                    k <= entries@.len(),
                    i < np,
                    entries@ == self.peer_bitfield_map@,
                    forall|l: int|
                        0 <= l < entries@.len() ==> (#[trigger] entries@[l]).bits@.len() == np,
                    c == spec_count_having(entries@.take(k as int), i as int),
                    c <= k,
                decreases entries@.len() - k,
            {
                proof {
                    lemma_count_having_take_succ(entries@, k as int, i as int);
                }
                if entries[k].bits[i] {
                    c = c + 1;
                }
                k = k + 1;
            }
            proof {
                assert(entries@.take(entries@.len() as int) =~= entries@);
            }
            mult.push(c);
            i = i + 1;
        }
        self.piece_multiplicities = mult;
    }

    /// Finds a peer's entry index by address.
    fn find_peer(&self, addr: PeerAddr) -> (r: Option<usize>)
        ensures
            match r {
                Some(k) => k < self.peer_bitfield_map@.len() && self.peer_bitfield_map@[
                    k as int
                ].addr == addr,
                None => !self.knows_peer(addr),
            },
    {
        let mut k: usize = 0;
        while k < self.peer_bitfield_map.len()
            invariant
                k <= self.peer_bitfield_map@.len(),
                forall|l: int| 0 <= l < k ==> (#[trigger] self.peer_bitfield_map@[l]).addr != addr,
            decreases self.peer_bitfield_map@.len() - k,
        {
            if self.peer_bitfield_map[k].addr == addr {
                return Some(k);
            }
            k = k + 1;
        }
        None
    }

    /// A known peer's bits are the bits of any entry carrying its address.
    proof fn lemma_bits_at(&self, k: int)
        requires
            self.wf(),
            0 <= k < self.peer_bitfield_map@.len(),
        ensures
            self.knows_peer(self.peer_bitfield_map@[k].addr),
            self.peer_bits(self.peer_bitfield_map@[k].addr) == self.peer_bitfield_map@[k].bits@,
    {
        let addr = self.peer_bitfield_map@[k].addr;
        assert(self.knows_peer(addr));
        let j = self.idx_of(addr);
        assert(0 <= j < self.peer_bitfield_map@.len() && self.peer_bitfield_map@[j].addr == addr);
        if j != k {
            assert(false);
        }
    }

    /// Installs or unions in a peer's advertised bitfield and rebuilds the
    /// multiplicities.  Rejects a bitfield whose length is not the piece
    /// count, leaving the state unchanged.
    pub fn update_bitfield(&mut self, addr: PeerAddr, bitfield: Vec<bool>) -> (r: Result<
        (),
        StrategyError,
    >)
        requires
            old(self).wf(),
        ensures
            final(self).wf(),
            old(self).endgame() ==> final(self).endgame(),
            match r {
                Ok(()) => {
                    &&& bitfield@.len() == old(self).spec_num_pieces()
                    &&& old(self).pieces_state_eq(&*final(self))
                    &&& old(self).peers_eq_except(&*final(self), addr)
                    &&& final(self).knows_peer(addr)
                    &&& final(self).peer_bits(addr).len() == old(self).spec_num_pieces()
                    &&& (forall|i: int|
                        0 <= i < old(self).spec_num_pieces() ==> #[trigger] final(self).peer_has(
                            addr,
                            i,
                        ) == (if old(self).knows_peer(addr) {
                            old(self).peer_has(addr, i) || bitfield@[i]
                        } else {
                            bitfield@[i]
                        }))
                },
                Err(e) => {
                    &&& e == StrategyError::MalformedBitfield
                    &&& bitfield@.len() != old(self).spec_num_pieces()
                    &&& old(self).pieces_state_eq(&*final(self))
                    &&& old(self).peers_eq(&*final(self))
                    &&& (forall|i: int|
                        0 <= i < old(self).spec_num_pieces() ==> final(self).multiplicity(i) == old(
                            self,
                        ).multiplicity(i))
                },
            },
    {
        if bitfield.len() != self.num_pieces {
            return Err(StrategyError::MalformedBitfield);
        }
        let found = self.find_peer(addr);
        match found {
            Some(k) => {
                proof {
                    self.lemma_bits_at(k as int);
                }
                let ghost old_entries = self.peer_bitfield_map@;
                let entry = &self.peer_bitfield_map[k];
                let mut merged: Vec<bool> = Vec::new();
                let mut i: usize = 0;
                while i < bitfield.len()
                    invariant
                        i <= bitfield@.len(),
                        k < self.peer_bitfield_map@.len(),
                        bitfield@.len() == self.num_pieces,
                        self.peer_bitfield_map@[k as int].bits@.len() == self.num_pieces,
                        merged@.len() == i,
                        forall|j: int|
                            0 <= j < i ==> merged@[j] == (self.peer_bitfield_map@[k as int].bits@[j]
                                || bitfield@[j]),
                    decreases bitfield@.len() - i,
                {
                    let v = self.peer_bitfield_map[k].bits[i] || bitfield[i];
                    merged.push(v);
                    i = i + 1;
                }
                let a = self.peer_bitfield_map[k].addr;
                self.peer_bitfield_map.set(k, PeerEntry { addr: a, bits: merged });
                proof {
                    lemma_entries_eq_except(
                        old_entries,
                        self.peer_bitfield_map@,
                        old(self),
                        &*self,
                        k as int,
                    );
                }
                let ghost mid = *self;
                self.update_multiplicities();
                proof {
                    lemma_same_entries_same_peers(&mid, &*self);
                    self.lemma_bits_at(k as int);
                    assert forall|p: PeerAddr| p != addr implies #[trigger] self.knows_peer(p)
                        == old(self).knows_peer(p) && (old(self).knows_peer(p) ==> self.peer_bits(p)
                        == old(self).peer_bits(p)) by {
                        assert(mid.knows_peer(p) == old(self).knows_peer(p));
                        assert(self.knows_peer(p) == mid.knows_peer(p));
                    }
                }
                Ok(())
            },
            None => {
                let ghost old_entries = self.peer_bitfield_map@;
                self.peer_bitfield_map.push(PeerEntry { addr, bits: bitfield });
                proof {
                    assert(forall|l: int|
                        0 <= l < old_entries.len() ==> self.peer_bitfield_map@[l]
                            == #[trigger] old_entries[l]);
                    assert(forall|l: int|
                        0 <= l < old_entries.len() ==> (#[trigger] old_entries[l]).addr != addr)
                        by {
                        assert forall|l: int|
                            0 <= l < old_entries.len() implies (#[trigger] old_entries[l]).addr
                            != addr by {
                            if old_entries[l].addr == addr {
                                assert(old(self).knows_peer(addr));
                            }
                        }
                    }
                    lemma_entries_push(old_entries, self.peer_bitfield_map@, old(self), &*self);
                }
                let ghost mid = *self;
                self.update_multiplicities();
                proof {
                    lemma_same_entries_same_peers(&mid, &*self);
                    let n = self.peer_bitfield_map@.len();
                    self.lemma_bits_at(n - 1);
                    assert forall|p: PeerAddr| p != addr implies #[trigger] self.knows_peer(p)
                        == old(self).knows_peer(p) && (old(self).knows_peer(p) ==> self.peer_bits(p)
                        == old(self).peer_bits(p)) by {
                        assert(mid.knows_peer(p) == old(self).knows_peer(p));
                        assert(self.knows_peer(p) == mid.knows_peer(p));
                    }
                }
                Ok(())
            },
        }
    }
}

/// Two strategy values with the same entries know the same peers with the
/// same bits.
proof fn lemma_same_entries_same_peers(a: &Strategy, b: &Strategy)
    requires
        a.spec_entries() == b.spec_entries(),
        forall|k2: int, l2: int|
            0 <= k2 < l2 < a.spec_entries().len() ==> (#[trigger] a.spec_entries()[k2]).addr
                != (#[trigger] a.spec_entries()[l2]).addr,
    ensures
        forall|p: PeerAddr| #[trigger] a.knows_peer(p) == b.knows_peer(p),
        forall|p: PeerAddr| a.knows_peer(p) ==> #[trigger] a.peer_bits(p) == b.peer_bits(p),
{
    assert forall|p: PeerAddr| #[trigger] a.knows_peer(p) == b.knows_peer(p) by {
        if a.knows_peer(p) {
            let k = a.spec_idx_of(p);
            assert(b.spec_entries()[k].addr == p);
            assert(b.knows_peer(p));
        }
        if b.knows_peer(p) {
            let k = b.spec_idx_of(p);
            assert(a.spec_entries()[k].addr == p);
            assert(a.knows_peer(p));
        }
    }
    assert forall|p: PeerAddr| a.knows_peer(p) implies #[trigger] a.peer_bits(p) == b.peer_bits(
        p,
    ) by {
        let j = a.spec_idx_of(p);
        let l = b.spec_idx_of(p);
        assert(a.spec_entries()[j].addr == p);
        assert(b.spec_entries()[l].addr == p);
        if j < l {
            assert(false);
        } else if l < j {
            assert(false);
        }
    }
}

/// After replacing entry `k`'s bits, every other peer's view is unchanged,
/// and uniqueness carries over.
proof fn lemma_entries_eq_except(
    old_entries: Seq<PeerEntry>,
    new_entries: Seq<PeerEntry>,
    a: &Strategy,
    b: &Strategy,
    k: int,
)
    requires
        a.wf(),
        old_entries == a.spec_entries(),
        new_entries == b.spec_entries(),
        0 <= k < old_entries.len(),
        new_entries.len() == old_entries.len(),
        new_entries[k].addr == old_entries[k].addr,
        forall|l: int| 0 <= l < old_entries.len() && l != k ==> new_entries[l] == old_entries[l],
    ensures
        forall|k2: int, l2: int|
            0 <= k2 < l2 < new_entries.len() ==> (#[trigger] new_entries[k2]).addr
                != (#[trigger] new_entries[l2]).addr,
        a.peers_eq_except(b, old_entries[k].addr),
{
    assert forall|k2: int, l2: int| 0 <= k2 < l2 < new_entries.len() implies (
    #[trigger] new_entries[k2]).addr != (#[trigger] new_entries[l2]).addr by {
        assert(new_entries[k2].addr == old_entries[k2].addr);
        assert(new_entries[l2].addr == old_entries[l2].addr);
    }
    let addr = old_entries[k].addr;
    assert forall|p: PeerAddr| p != addr implies #[trigger] b.knows_peer(p) == a.knows_peer(p) && (
    a.knows_peer(p) ==> b.peer_bits(p) == a.peer_bits(p)) by {
        if a.knows_peer(p) {
            let j = a.spec_idx_of(p);
            assert(new_entries[j].addr == p);
            assert(b.knows_peer(p));
            b.lemma_bits_at_unique(j);
            a.lemma_bits_at_unique(j);
        }
        if b.knows_peer(p) {
            let j = b.spec_idx_of(p);
            assert(old_entries[j].addr == p);
            assert(a.knows_peer(p));
        }
    }
}

/// After pushing a new entry, every existing peer's view is unchanged and
/// uniqueness carries over.
proof fn lemma_entries_push(
    old_entries: Seq<PeerEntry>,
    new_entries: Seq<PeerEntry>,
    a: &Strategy,
    b: &Strategy,
)
    requires
        a.wf(),
        old_entries == a.spec_entries(),
        new_entries == b.spec_entries(),
        new_entries.len() == old_entries.len() + 1,
        forall|l: int| 0 <= l < old_entries.len() ==> #[trigger] new_entries[l] == old_entries[l],
        forall|l: int|
            0 <= l < old_entries.len() ==> (#[trigger] old_entries[l]).addr != new_entries[
                old_entries.len() as int
            ].addr,
    ensures
        forall|k2: int, l2: int|
            0 <= k2 < l2 < new_entries.len() ==> (#[trigger] new_entries[k2]).addr
                != (#[trigger] new_entries[l2]).addr,
        a.peers_eq_except(b, new_entries[old_entries.len() as int].addr),
        b.knows_peer(new_entries[old_entries.len() as int].addr),
{
    let n = old_entries.len() as int;
    let addr = new_entries[n].addr;
    assert forall|k2: int, l2: int| 0 <= k2 < l2 < new_entries.len() implies (
    #[trigger] new_entries[k2]).addr != (#[trigger] new_entries[l2]).addr by {
        if l2 < n {
            assert(new_entries[k2] == old_entries[k2]);
            assert(new_entries[l2] == old_entries[l2]);
        } else {
            assert(new_entries[k2] == old_entries[k2]);
        }
    }
    assert(b.knows_peer(addr));
    assert forall|p: PeerAddr| p != addr implies #[trigger] b.knows_peer(p) == a.knows_peer(p) && (
    a.knows_peer(p) ==> b.peer_bits(p) == a.peer_bits(p)) by {
        if a.knows_peer(p) {
            let j = a.spec_idx_of(p);
            assert(new_entries[j].addr == p);
            assert(b.knows_peer(p));
            b.lemma_bits_at_unique(j);
            a.lemma_bits_at_unique(j);
        }
        if b.knows_peer(p) {
            let j = b.spec_idx_of(p);
            assert(j != n);
            assert(old_entries[j].addr == p);
            assert(a.knows_peer(p));
        }
    }
}

impl Strategy {
    /// The raw entries, for in-module proofs.
    closed spec fn spec_entries(&self) -> Seq<PeerEntry> {
        self.peer_bitfield_map@
    }

    /// The entry index of a known peer, for in-module proofs.
    closed spec fn spec_idx_of(&self, addr: PeerAddr) -> int {
        self.idx_of(addr)
    }

    /// As `lemma_bits_at`, without requiring full well-formedness: only
    /// uniqueness of the addresses.
    proof fn lemma_bits_at_unique(&self, k: int)
        requires
            0 <= k < self.peer_bitfield_map@.len(),
            forall|k2: int, l2: int|
                0 <= k2 < l2 < self.peer_bitfield_map@.len() ==> (#[trigger] self.peer_bitfield_map@[k2]).addr
                    != (#[trigger] self.peer_bitfield_map@[l2]).addr,
        ensures
            self.knows_peer(self.peer_bitfield_map@[k].addr),
            self.peer_bits(self.peer_bitfield_map@[k].addr) == self.peer_bitfield_map@[k].bits@,
            self.spec_idx_of(self.peer_bitfield_map@[k].addr) == k,
    {
        let addr = self.peer_bitfield_map@[k].addr;
        assert(self.knows_peer(addr));
        let j = self.idx_of(addr);
        assert(0 <= j < self.peer_bitfield_map@.len() && self.peer_bitfield_map@[j].addr == addr);
        if j < k {
            assert(false);
        } else if k < j {
            assert(false);
        }
    }
}

impl Strategy {
    /// Selects the piece this peer should fetch next: among the pieces the
    /// peer has that are not complete and, outside endgame, not in progress,
    /// the one held by the fewest peers, ties broken by lowest index.  The
    /// selected piece is marked in progress.
    pub fn get_piece_index(&mut self, addr: PeerAddr) -> (r: Option<u32>)
        requires
            old(self).wf(),
            old(self).knows_peer(addr),
            old(self).spec_num_pieces() <= u32::MAX,
        ensures
            final(self).wf(),
            final(self).spec_num_pieces() == old(self).spec_num_pieces(),
            old(self).peers_eq(&*final(self)),
            final(self).downloaded() == old(self).downloaded(),
            final(self).endgame() == old(self).endgame(),
            forall|i: int|
                0 <= i < old(self).spec_num_pieces() ==> final(self).multiplicity(i) == old(
                    self,
                ).multiplicity(i),
            match r {
                Some(j) => {
                    &&& old(self).qualifies(addr, j as int)
                    &&& (forall|k: int|
                        old(self).qualifies(addr, k) ==> old(self).multiplicity(j as int) <= old(
                            self,
                        ).multiplicity(k))
                    &&& (forall|k: int|
                        old(self).qualifies(addr, k) && old(self).multiplicity(k) == old(
                            self,
                        ).multiplicity(j as int) ==> j <= k)
                    &&& final(self).in_progress() == old(self).in_progress().update(j as int, true)
                },
                None => {
                    &&& (forall|k: int| !old(self).qualifies(addr, k))
                    &&& final(self).in_progress() == old(self).in_progress()
                },
            },
    {
        let found = self.find_peer(addr);
        let k = match found {
            Some(k) => k,
            None => {
                proof {
                    assert(false);
                }
                return None;
            },
        };
        proof {
            self.lemma_bits_at(k as int);
        }
        let np = self.num_pieces;
        let mut best: Option<(usize, usize)> = None;
        let mut i: usize = 0;
        while i < np
            invariant
                i <= np,
                np == self.num_pieces,
                *self == *old(self),
                self.wf(),
                k < self.peer_bitfield_map@.len(),
                self.peer_bitfield_map@[k as int].addr == addr,
                self.peer_bits(addr) == self.peer_bitfield_map@[k as int].bits@,
                match best {
                    None => forall|t: int| 0 <= t < i ==> !self.qualifies(addr, t),
                    Some((j, m)) => {
                        &&& j < i
                        &&& self.qualifies(addr, j as int)
                        &&& m == self.multiplicity(j as int)
                        &&& (forall|t: int|
                            0 <= t < i && self.qualifies(addr, t) ==> m <= self.multiplicity(t))
                        &&& (forall|t: int|
                            0 <= t < i && self.qualifies(addr, t) && self.multiplicity(t) == m
                                ==> j <= t)
                    },
                },
            decreases np - i,
        {
            if self.peer_bitfield_map[k].bits[i] && !self.downloaded[i] && (self.endgame_mode
                || !self.in_progress[i]) {
                let m = self.piece_multiplicities[i];
                best = match best {
                    None => Some((i, m)),
                    Some((j, bm)) => {
                        if m < bm {
                            Some((i, m))
                        } else {
                            Some((j, bm))
                        }
                    },
                };
            }
            i = i + 1;
        }
        match best {
            Some((j, _)) => {
                let ghost mid = *self;
                self.in_progress.set(j, true);
                proof {
                    lemma_same_entries_same_peers(&mid, &*self);
                    assert(self.peer_bits(addr) == mid.peer_bits(addr));
                }
                Some(j as u32)
            },
            None => None,
        }
    }

    /// Records a completed piece: clears its in-progress bit, sets its
    /// completed bit, and engages endgame once every piece is either in
    /// progress or complete.  Endgame is sticky.
    pub fn piece_completed(&mut self, index: u32)
        requires
            old(self).wf(),
            (index as int) < old(self).spec_num_pieces(),
        ensures
            final(self).wf(),
            final(self).spec_num_pieces() == old(self).spec_num_pieces(),
            old(self).peers_eq(&*final(self)),
            forall|i: int|
                0 <= i < old(self).spec_num_pieces() ==> final(self).multiplicity(i) == old(
                    self,
                ).multiplicity(i),
            final(self).downloaded() == old(self).downloaded().update(index as int, true),
            final(self).in_progress() == old(self).in_progress().update(index as int, false),
            final(self).endgame() == (old(self).endgame() || (forall|i: int|
                0 <= i < old(self).spec_num_pieces()
                    ==> (final(self).in_progress()[i] || final(self).downloaded()[i]))),
            old(self).endgame() ==> final(self).endgame(),
    {
        let idx = index as usize;
        let ghost orig = *self;
        self.in_progress.set(idx, false);
        self.downloaded.set(idx, true);
        if !self.endgame_mode {
            let np = self.num_pieces;
            let mut all: bool = true;
            let mut i: usize = 0;
            while i < np
                invariant
                    i <= np,
                    np == self.num_pieces,
                    self.in_progress@.len() == np,
                    self.downloaded@.len() == np,
                    all ==> (forall|t: int|
                        0 <= t < i ==> (self.in_progress@[t] || self.downloaded@[t])),
                    !all ==> (exists|t: int|
                        0 <= t < np && !(#[trigger] self.in_progress@[t]) && !self.downloaded@[t]),
                decreases np - i,
            {
                if !self.in_progress[i] && !self.downloaded[i] {
                    all = false;
                }
                i = i + 1;
            }
            self.endgame_mode = all;
            proof {
                if all {
                    assert forall|t: int|
                        0 <= t < old(self).spec_num_pieces() implies (self.in_progress()[t]
                        || self.downloaded()[t]) by {
                        assert(self.in_progress@[t] || self.downloaded@[t]);
                    }
                } else {
                    let t = choose|t: int|
                        0 <= t < np && !(#[trigger] self.in_progress@[t]) && !self.downloaded@[t];
                    assert(!(self.in_progress()[t] || self.downloaded()[t]));
                }
            }
        }
        proof {
            lemma_same_entries_same_peers(&orig, &*self);
            assert(self.downloaded@ =~= old(self).downloaded@.update(index as int, true));
            assert(self.in_progress@ =~= old(self).in_progress@.update(index as int, false));
        }
    }

    /// Removes a peer from the availability map and rebuilds the
    /// multiplicities.  Unknown addresses are a no-op.
    pub fn peer_disconnect(&mut self, addr: PeerAddr)
        requires
            old(self).wf(),
        ensures
            final(self).wf(),
            old(self).pieces_state_eq(&*final(self)),
            old(self).peers_eq_except(&*final(self), addr),
            !final(self).knows_peer(addr),
    {
        let found = self.find_peer(addr);
        match found {
            None => {
                proof {
                    assert(old(self).peers_eq_except(&*self, addr));
                }
            },
            Some(k) => {
                let ghost old_entries = self.peer_bitfield_map@;
                self.peer_bitfield_map.remove(k);
                proof {
                    lemma_entries_remove(old_entries, self.peer_bitfield_map@, old(self), &*self, k as int);
                }
                let ghost mid = *self;
                self.update_multiplicities();
                proof {
                    lemma_same_entries_same_peers(&mid, &*self);
                    assert forall|p: PeerAddr| p != addr implies #[trigger] self.knows_peer(p)
                        == old(self).knows_peer(p) && (old(self).knows_peer(p) ==> self.peer_bits(p)
                        == old(self).peer_bits(p)) by {
                        assert(mid.knows_peer(p) == old(self).knows_peer(p));
                        assert(self.knows_peer(p) == mid.knows_peer(p));
                        if old(self).knows_peer(p) {
                            assert(old(self).peer_bits(p) == mid.peer_bits(p));
                            assert(mid.peer_bits(p) == self.peer_bits(p));
                        }
                    }
                    assert(!mid.knows_peer(addr));
                    assert(!self.knows_peer(addr));
                    assert(old(self).peers_eq_except(&*self, addr));
                }
            },
        }
    }
}

/// After removing entry `k`, that peer is forgotten, every other peer's view
/// is unchanged, and uniqueness carries over.
proof fn lemma_entries_remove(
    old_entries: Seq<PeerEntry>,
    new_entries: Seq<PeerEntry>,
    a: &Strategy,
    b: &Strategy,
    k: int,
)
    requires
        a.wf(),
        old_entries == a.spec_entries(),
        new_entries == b.spec_entries(),
        0 <= k < old_entries.len(),
        new_entries == old_entries.remove(k),
    ensures
        new_entries.len() == old_entries.len() - 1,
        forall|l: int|
            0 <= l < new_entries.len() ==> #[trigger] new_entries[l] == (if l < k {
                old_entries[l]
            } else {
                old_entries[l + 1]
            }),
        forall|k2: int, l2: int|
            0 <= k2 < l2 < new_entries.len() ==> (#[trigger] new_entries[k2]).addr
                != (#[trigger] new_entries[l2]).addr,
        !b.knows_peer(old_entries[k].addr),
        a.peers_eq_except(b, old_entries[k].addr),
{
    let addr = old_entries[k].addr;
    assert(forall|l: int|
        0 <= l < new_entries.len() ==> #[trigger] new_entries[l] == (if l < k {
            old_entries[l]
        } else {
            old_entries[l + 1]
        }));
    assert forall|k2: int, l2: int| 0 <= k2 < l2 < new_entries.len() implies (
    #[trigger] new_entries[k2]).addr != (#[trigger] new_entries[l2]).addr by {}
    if b.knows_peer(addr) {
        let l = b.spec_idx_of(addr);
        assert(new_entries[l].addr == addr);
        if l < k {
            assert(old_entries[l].addr == addr && old_entries[k].addr == addr);
            assert(false);
        } else {
            assert(old_entries[l + 1].addr == addr && old_entries[k].addr == addr);
            assert(false);
        }
    }
    assert forall|p: PeerAddr| p != addr implies #[trigger] b.knows_peer(p) == a.knows_peer(p) && (
    a.knows_peer(p) ==> b.peer_bits(p) == a.peer_bits(p)) by {
        if a.knows_peer(p) {
            let j = a.spec_idx_of(p);
            assert(old_entries[j].addr == p);
            assert(j != k);
            if j < k {
                assert(new_entries[j].addr == p);
            } else {
                assert(new_entries[j - 1].addr == p);
            }
            assert(b.knows_peer(p));
            let l = b.spec_idx_of(p);
            assert(new_entries[l].addr == p);
            let m = if l < k {
                l
            } else {
                l + 1
            };
            assert(old_entries[m].addr == p);
            if m < j {
                assert(false);
            } else if j < m {
                assert(false);
            }
            assert(b.peer_bits(p) == new_entries[l].bits@);
            assert(a.peer_bits(p) == old_entries[j].bits@);
        }
        if b.knows_peer(p) {
            let l = b.spec_idx_of(p);
            let m = if l < k {
                l
            } else {
                l + 1
            };
            assert(old_entries[m].addr == p);
            assert(a.knows_peer(p));
        }
    }
}

/// One request to the strategy owner.
pub enum AdminMessage {
    /// Install or union in a peer's advertised bitfield.
    PeerBitfield { addr: PeerAddr, peer_bitfield: Vec<bool> },
    /// Record that a peer announced one more piece.
    PeerHave { addr: PeerAddr, index: u32 },
    /// Ask for a piece assignment for this peer.
    PieceIndexRequest { addr: PeerAddr },
    /// A piece has been fully received and written.
    PieceDownload { index: u32 },
    /// A peer's connection ended.
    PeerDisconnect { addr: PeerAddr },
}

/// The strategy owner's answer to one request.
#[derive(Debug, PartialEq, Eq, Structural, Clone, Copy)]
pub enum Reply {
    /// The request was applied.
    Ack,
    /// The piece to fetch next.
    Piece(u32),
    /// No piece qualifies for this peer.
    NoPiece,
    /// The request was malformed: a bitfield of the wrong length, an unknown
    /// peer address, or a piece index out of range.
    Rejected,
}

impl Strategy {
    /// Applies one request and answers it.  A bitfield of the wrong length,
    /// a request for an unknown peer, and an out-of-range piece index are
    /// rejected and leave the state unchanged.  Endgame never disengages.
    pub fn handle_message(&mut self, admin_message: AdminMessage) -> (r: Reply)
        requires
            old(self).wf(),
            old(self).spec_num_pieces() <= u32::MAX,
        ensures
            final(self).wf(),
            final(self).spec_num_pieces() == old(self).spec_num_pieces(),
            old(self).endgame() ==> final(self).endgame(),
            match admin_message {
                AdminMessage::PeerBitfield { addr, peer_bitfield } => {
                    if peer_bitfield@.len() == old(self).spec_num_pieces() {
                        &&& r == Reply::Ack
                        &&& old(self).pieces_state_eq(&*final(self))
                        &&& old(self).peers_eq_except(&*final(self), addr)
                        &&& final(self).knows_peer(addr)
                        &&& (forall|i: int|
                            0 <= i < old(self).spec_num_pieces()
                                ==> #[trigger] final(self).peer_has(addr, i) == (if old(
                                self,
                            ).knows_peer(addr) {
                                old(self).peer_has(addr, i) || peer_bitfield@[i]
                            } else {
                                peer_bitfield@[i]
                            }))
                    } else {
                        &&& r == Reply::Rejected
                        &&& old(self).pieces_state_eq(&*final(self))
                        &&& old(self).peers_eq(&*final(self))
                    }
                },
                AdminMessage::PeerHave { addr, index } => {
                    if (index as int) < old(self).spec_num_pieces() {
                        &&& r == Reply::Ack
                        &&& old(self).pieces_state_eq(&*final(self))
                        &&& old(self).peers_eq_except(&*final(self), addr)
                        &&& final(self).knows_peer(addr)
                        &&& (forall|i: int|
                            0 <= i < old(self).spec_num_pieces()
                                ==> #[trigger] final(self).peer_has(addr, i) == (if old(
                                self,
                            ).knows_peer(addr) {
                                old(self).peer_has(addr, i) || i == index
                            } else {
                                i == index
                            }))
                    } else {
                        &&& r == Reply::Rejected
                        &&& old(self).pieces_state_eq(&*final(self))
                        &&& old(self).peers_eq(&*final(self))
                    }
                },
                AdminMessage::PieceIndexRequest { addr } => {
                    if old(self).knows_peer(addr) {
                        &&& final(self).downloaded() == old(self).downloaded()
                        &&& final(self).endgame() == old(self).endgame()
                        &&& old(self).peers_eq(&*final(self))
                        &&& match r {
                            Reply::Piece(j) => {
                                &&& old(self).qualifies(addr, j as int)
                                &&& (forall|k: int|
                                    old(self).qualifies(addr, k) ==> old(self).multiplicity(
                                        j as int,
                                    ) <= old(self).multiplicity(k))
                                &&& (forall|k: int|
                                    old(self).qualifies(addr, k) && old(self).multiplicity(k)
                                        == old(self).multiplicity(j as int) ==> j <= k)
                                &&& final(self).in_progress() == old(self).in_progress().update(
                                    j as int,
                                    true,
                                )
                            },
                            Reply::NoPiece => {
                                &&& (forall|k: int| !old(self).qualifies(addr, k))
                                &&& final(self).in_progress() == old(self).in_progress()
                            },
                            _ => false,
                        }
                    } else {
                        &&& r == Reply::Rejected
                        &&& old(self).pieces_state_eq(&*final(self))
                        &&& old(self).peers_eq(&*final(self))
                    }
                },
                AdminMessage::PieceDownload { index } => {
                    if (index as int) < old(self).spec_num_pieces() {
                        &&& r == Reply::Ack
                        &&& old(self).peers_eq(&*final(self))
                        &&& final(self).downloaded() == old(self).downloaded().update(
                            index as int,
                            true,
                        )
                        &&& final(self).in_progress() == old(self).in_progress().update(
                            index as int,
                            false,
                        )
                        &&& final(self).endgame() == (old(self).endgame() || (forall|i: int|
                            0 <= i < old(self).spec_num_pieces() ==> (final(self).in_progress()[i]
                                || final(self).downloaded()[i])))
                    } else {
                        &&& r == Reply::Rejected
                        &&& old(self).pieces_state_eq(&*final(self))
                        &&& old(self).peers_eq(&*final(self))
                    }
                },
                AdminMessage::PeerDisconnect { addr } => {
                    &&& r == Reply::Ack
                    &&& old(self).pieces_state_eq(&*final(self))
                    &&& old(self).peers_eq_except(&*final(self), addr)
                    &&& !final(self).knows_peer(addr)
                },
            },
    {
        match admin_message {
            AdminMessage::PeerBitfield { addr, peer_bitfield } => {
                let ghost bfv = peer_bitfield@;
                match self.update_bitfield(addr, peer_bitfield) {
                    Ok(()) => {
                        proof {
                            assert(bfv.len() == old(self).spec_num_pieces());
                            assert forall|i: int|
                                0 <= i < old(self).spec_num_pieces() implies #[trigger] self.peer_has(
                                addr,
                                i,
                            ) == (if old(self).knows_peer(addr) {
                                old(self).peer_has(addr, i) || bfv[i]
                            } else {
                                bfv[i]
                            }) by {
                                assert(self.knows_peer(addr));
                                assert(self.peer_bits(addr).len() == old(self).spec_num_pieces());
                                assert(self.peer_has(addr, i) == (if old(self).knows_peer(addr) {
                                    old(self).peer_has(addr, i) || bfv[i]
                                } else {
                                    bfv[i]
                                }));
                            }
                        }
                        Reply::Ack
                    },
                    Err(_) => Reply::Rejected,
                }
            },
            AdminMessage::PeerHave { addr, index } => {
                if (index as usize) < self.num_pieces {
                    // a have is a one-hot union into the peer's bitfield
                    let mut one_hot: Vec<bool> = Vec::new();
                    let mut k: usize = 0;
                    while k < self.num_pieces
                        invariant
                            k <= self.num_pieces,
                            one_hot@.len() == k,
                            forall|i: int| 0 <= i < k ==> one_hot@[i] == (i == index),
                        decreases self.num_pieces - k,
                    {
                        one_hot.push(k == index as usize);
                        k = k + 1;
                    }
                    let ghost hot = one_hot@;
                    match self.update_bitfield(addr, one_hot) {
                        Ok(()) => {
                            proof {
                                assert(forall|i: int|
                                    0 <= i < old(self).spec_num_pieces()
                                        ==> #[trigger] self.peer_has(addr, i) == (if old(
                                        self,
                                    ).knows_peer(addr) {
                                        old(self).peer_has(addr, i) || hot[i]
                                    } else {
                                        hot[i]
                                    }));
                            }
                            Reply::Ack
                        },
                        Err(_) => {
                            proof {
                                assert(false);
                            }
                            Reply::Rejected
                        },
                    }
                } else {
                    Reply::Rejected
                }
            },
            AdminMessage::PieceIndexRequest { addr } => {
                let found = self.find_peer(addr);
                match found {
                    Some(_k) => {
                        match self.get_piece_index(addr) {
                            Some(j) => Reply::Piece(j),
                            None => Reply::NoPiece,
                        }
                    },
                    None => Reply::Rejected,
                }
            },
            AdminMessage::PieceDownload { index } => {
                if (index as usize) < self.num_pieces {
                    self.piece_completed(index);
                    Reply::Ack
                } else {
                    Reply::Rejected
                }
            },
            AdminMessage::PeerDisconnect { addr } => {
                self.peer_disconnect(addr);
                Reply::Ack
            },
        }
    }
}


impl Strategy {
    /// Whether endgame duplication is engaged, for telemetry.
    pub fn is_endgame(&self) -> (r: bool)
        ensures
            r == self.endgame(),
    {
        self.endgame_mode
    }

    /// The number of pieces tracked.
    pub fn piece_count(&self) -> (r: usize)
        ensures
            r == self.spec_num_pieces(),
    {
        self.num_pieces
    }

    /// A copy of the in-progress bits, for telemetry.
    pub fn snapshot_in_progress(&self) -> (r: Vec<bool>)
        ensures
            r@ == self.in_progress(),
    {
        copy_bools(&self.in_progress)
    }

    /// A copy of the completed bits, for telemetry.
    pub fn snapshot_downloaded(&self) -> (r: Vec<bool>)
        ensures
            r@ == self.downloaded(),
    {
        copy_bools(&self.downloaded)
    }
}

/// Copies a boolean vector.
fn copy_bools(v: &Vec<bool>) -> (r: Vec<bool>)
    ensures
        r@ == v@,
{
    let mut out: Vec<bool> = Vec::new();
    let mut k: usize = 0;
    while k < v.len()
        invariant
            k <= v@.len(),
            out@ == v@.take(k as int),
        decreases v@.len() - k,
    {
        out.push(v[k]);
        proof {
            assert(out@ =~= v@.take(k + 1));
        }
        k = k + 1;
    }
    proof {
        assert(v@.take(v@.len() as int) =~= v@);
    }
    out
}

/// Completed pieces are never in progress: the strategy's invariant keeps
/// the two sets disjoint at all times, endgame included.
pub proof fn lemma_completed_not_in_progress(s: &Strategy, i: int)
    requires
        s.wf(),
        0 <= i < s.spec_num_pieces(),
        s.downloaded()[i],
    ensures
        !s.in_progress()[i],
{
}

} // verus!
