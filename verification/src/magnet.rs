//! Magnet-link identity parsing and the node-lookup bookkeeping used to
//! gather peers from the distributed hash table.  The datagrams travel
//! outside the library; the decisions and the byte logic live here.

use crate::utils::PeerAddr;
use vstd::prelude::*;

verus! {

/// The CRC-32C checksum of a byte string, named: it depends on the bytes
/// alone.
pub uninterp spec fn crc32c_of(data: Seq<u8>) -> u32;

/// Relies on crc32c::crc32c: the CRC-32C checksum of the input, a function
/// of the input bytes alone.
#[verifier::external_body]
fn crc32c_bytes(data: &Vec<u8>) -> (r: u32)
    ensures
        r == crc32c_of(data@),
{
    crc32c::crc32c(data.as_slice())
}

/// Whether a character is a hexadecimal digit.
pub open spec fn is_hex_char(c: char) -> bool {
    (48 <= c as u32 && c as u32 <= 57) || (97 <= c as u32 && c as u32 <= 102) || (65 <= c as u32
        && c as u32 <= 70)
}

/// The value of one hexadecimal digit.
pub open spec fn spec_hex_val(c: char) -> int {
    if 48 <= c as u32 && c as u32 <= 57 {
        c as u32 - 48
    } else if 97 <= c as u32 && c as u32 <= 102 {
        c as u32 - 87
    } else {
        c as u32 - 55
    }
}

/// The byte denoted by two hexadecimal digits.
pub open spec fn spec_hex_byte(hi: char, lo: char) -> u8 {
    (16 * spec_hex_val(hi) + spec_hex_val(lo)) as u8
}

/// The value of one hexadecimal digit character, if it is one.
fn hex_val(c: char) -> (r: Option<u8>)
    ensures
        match r {
            Some(v) => is_hex_char(c) && v == spec_hex_val(c) && v < 16,
            None => !is_hex_char(c),
        },
{
    let u = c as u32;
    if 48 <= u && u <= 57 {
        Some((u - 48) as u8)
    } else if 97 <= u && u <= 102 {
        Some((u - 87) as u8)
    } else if 65 <= u && u <= 70 {
        Some((u - 55) as u8)
    } else {
        None
    }
}

/// The characters of the `magnet:?` scheme prefix.
pub open spec fn spec_magnet_prefix(link: Seq<char>) -> bool {
    &&& link.len() >= 8
    &&& link[0] == 'm'
    &&& link[1] == 'a'
    &&& link[2] == 'g'
    &&& link[3] == 'n'
    &&& link[4] == 'e'
    &&& link[5] == 't'
    &&& link[6] == ':'
    &&& link[7] == '?'
}

/// A content-identity parameter starts at `start`: on a segment boundary,
/// the twelve characters `xt=urn:btih:`, then forty hexadecimal digits, then
/// a segment boundary again.
pub open spec fn spec_btih_at(link: Seq<char>, start: int) -> bool {
    &&& 8 <= start
    &&& start + 52 <= link.len()
    &&& (start == 8 || link[start - 1] == '&')
    &&& (start + 52 == link.len() || link[start + 52] == '&')
    &&& link[start] == 'x'
    &&& link[start + 1] == 't'
    &&& link[start + 2] == '='
    &&& link[start + 3] == 'u'
    &&& link[start + 4] == 'r'
    &&& link[start + 5] == 'n'
    &&& link[start + 6] == ':'
    &&& link[start + 7] == 'b'
    &&& link[start + 8] == 't'
    &&& link[start + 9] == 'i'
    &&& link[start + 10] == 'h'
    &&& link[start + 11] == ':'
    &&& (forall|t: int| start + 12 <= t < start + 52 ==> is_hex_char(#[trigger] link[t]))
}

/// The twenty bytes denoted by the forty hexadecimal digits at `from`.
pub open spec fn spec_hex_bytes20(link: Seq<char>, from: int) -> Seq<u8> {
    Seq::new(20, |j: int| spec_hex_byte(link[from + 2 * j], link[from + 2 * j + 1]))
}

/// Extracts the 20-byte content identity hash from a magnet link: the link
/// must carry the `magnet:?` scheme and an `xt=urn:btih:` parameter with
/// forty hexadecimal digits.  The first such parameter wins; a link without
/// one yields nothing.
pub fn parse_info_hash(link: &str) -> (r: Option<Vec<u8>>)
    requires
        link@.len() < usize::MAX,
    ensures
        match r {
            Some(h) => {
                &&& spec_magnet_prefix(link@)
                &&& h@.len() == 20
                &&& exists|start: int|
                    (#[trigger] spec_btih_at(link@, start)) && h@ == spec_hex_bytes20(
                        link@,
                        start + 12,
                    ) && (forall|s2: int| s2 < start ==> !spec_btih_at(link@, s2))
            },
            None => !spec_magnet_prefix(link@) || (forall|start: int|
                !spec_btih_at(link@, start)),
        },
{
    let n = link.unicode_len();
    if n < 8 {
        return None;
    }
    if !(link.get_char(0) == 'm' && link.get_char(1) == 'a' && link.get_char(2) == 'g'
        && link.get_char(3) == 'n' && link.get_char(4) == 'e' && link.get_char(5) == 't'
        && link.get_char(6) == ':' && link.get_char(7) == '?') {
        return None;
    }
    let mut seg_start: usize = 8;
    loop
        invariant
            8 <= seg_start <= n + 1,
            n == link@.len(),
            n < usize::MAX,
            spec_magnet_prefix(link@),
            seg_start == 8 || seg_start > n || (seg_start >= 9 && link@[seg_start as int - 1]
                == '&'),
            forall|s: int| s < seg_start ==> !spec_btih_at(link@, s),
        decreases n + 1 - seg_start,
    {
        if seg_start > n {
            proof {
                assert forall|s: int| !spec_btih_at(link@, s) by {
                    if s >= seg_start {
                        assert(!(s + 52 <= n));
                    }
                }
            }
            return None;
        }
        // find the end of this segment: the first separator at or after its
        // start
        let mut seg_end: usize = seg_start;
        while seg_end < n && link.get_char(seg_end) != '&'
            invariant
                seg_start <= seg_end <= n,
                n == link@.len(),
                forall|t: int| seg_start <= t < seg_end ==> link@[t] != '&',
            decreases n - seg_end,
        {
            seg_end = seg_end + 1;
        }
        // a matching parameter is exactly 52 characters long
        if seg_end - seg_start == 52 && link.get_char(seg_start) == 'x' && link.get_char(
            seg_start + 1,
        ) == 't' && link.get_char(seg_start + 2) == '=' && link.get_char(seg_start + 3) == 'u'
            && link.get_char(seg_start + 4) == 'r' && link.get_char(seg_start + 5) == 'n'
            && link.get_char(seg_start + 6) == ':' && link.get_char(seg_start + 7) == 'b'
            && link.get_char(seg_start + 8) == 't' && link.get_char(seg_start + 9) == 'i'
            && link.get_char(seg_start + 10) == 'h' && link.get_char(seg_start + 11) == ':' {
            let from = seg_start + 12;
            let mut out: Vec<u8> = Vec::new();
            let mut j: usize = 0;
            let mut all_hex = true;
            while j < 20
                invariant
                    j <= 20,
                    n == link@.len(),
                    from == seg_start + 12,
                    seg_start + 52 <= n,
                    all_hex ==> out@.len() == j,
                    all_hex ==> (forall|t: int|
                        from <= t < from + 2 * j ==> is_hex_char(#[trigger] link@[t])),
                    all_hex ==> (forall|i: int|
                        0 <= i < j ==> #[trigger] out@[i] == spec_hex_byte(
                            link@[from + 2 * i],
                            link@[from + 2 * i + 1],
                        )),
                    !all_hex ==> (exists|t: int|
                        from <= t < from + 52 - 12 && !is_hex_char(#[trigger] link@[t])),
                decreases 20 - j,
            {
                if all_hex {
                    let hi = hex_val(link.get_char(from + 2 * j));
                    let lo = hex_val(link.get_char(from + 2 * j + 1));
                    match (hi, lo) {
                        (Some(h), Some(l)) => {
                            out.push(16 * h + l);
                        },
                        _ => {
                            all_hex = false;
                        },
                    }
                }
                j = j + 1;
            }
            if all_hex {
                proof {
                    assert(spec_btih_at(link@, seg_start as int));
                    assert(out@ =~= spec_hex_bytes20(link@, from as int));
                }
                return Some(out);
            }
            proof {
                assert(!spec_btih_at(link@, seg_start as int));
                assert forall|s: int| seg_start <= s <= seg_end implies !spec_btih_at(link@, s) by {
                    if seg_start < s {
                        assert(link@[s - 1] != '&');
                    }
                }
            }
        } else {
            proof {
                assert forall|s: int| seg_start <= s <= seg_end implies !spec_btih_at(
                    link@,
                    s,
                ) by {
                    if s == seg_start {
                        if spec_btih_at(link@, s) {
                            lemma_btih_no_amp(link@, s);
                            if (seg_end as int) < s + 52 {
                                if seg_end < n {
                                    assert(link@[seg_end as int] == '&');
                                    assert(link@[seg_end as int] != '&');
                                } else {
                                    assert(s + 52 <= n);
                                }
                            } else if s + 52 < seg_end {
                                assert(link@[s + 52] != '&');
                                assert(s + 52 < n);
                                assert(s + 52 == n || link@[s + 52] == '&');
                            } else {
                                assert(seg_end == seg_start + 52);
                            }
                            assert(false);
                        }
                    } else {
                        assert(link@[s - 1] != '&');
                    }
                }
            }
        }
        seg_start = seg_end + 1;
    }
}

/// No separator occurs inside a content-identity parameter.
proof fn lemma_btih_no_amp(link: Seq<char>, start: int)
    requires
        spec_btih_at(link, start),
    ensures
        forall|t: int| start <= t < start + 52 ==> #[trigger] link[t] != '&',
{
    assert forall|t: int| start <= t < start + 52 implies #[trigger] link[t] != '&' by {
        if start + 12 <= t {
            assert(is_hex_char(link[t]));
        }
    }
}

/// The masked address bits mixed into a node identity.
pub open spec fn spec_node_seed(ip: u32, rand_byte: u8) -> u32 {
    ((ip & 0x030f3fff) | (((rand_byte & 0x7) as u32) << 29u32)) as u32
}

/// Derives this client's 20-byte node identity from its external address:
/// the first three bytes of the checksum of the masked address, sixteen
/// distinguishing bytes, and the random byte that seeded the mask.
pub fn compute_node_id(ip: u32, rand_byte: u8, tail: &Vec<u8>) -> (r: Vec<u8>)
    requires
        tail@.len() == 16,
    ensures
        r@.len() == 20,
        r@ == crate::utils::spec_u32_be(crc32c_of(crate::utils::spec_u32_be(spec_node_seed(
            ip,
            rand_byte,
        )))).take(3) + tail@ + seq![rand_byte],
{
    let rand_bits: u32 = (rand_byte & 0x7) as u32;
    let seed: u32 = (ip & 0x030f3fff) | (rand_bits << 29u32);
    let mut seed_bytes: Vec<u8> = Vec::new();
    crate::utils::push_u32_be(&mut seed_bytes, seed);
    proof {
        assert(seed == spec_node_seed(ip, rand_byte));
        assert(seed_bytes@ =~= crate::utils::spec_u32_be(seed));
    }
    let hash = crc32c_bytes(&seed_bytes);
    let mut hash_bytes: Vec<u8> = Vec::new();
    crate::utils::push_u32_be(&mut hash_bytes, hash);
    proof {
        assert(hash_bytes@ =~= crate::utils::spec_u32_be(hash));
    }
    let mut out: Vec<u8> = Vec::new();
    out.push(hash_bytes[0]);
    out.push(hash_bytes[1]);
    out.push(hash_bytes[2]);
    let mut k: usize = 0;
    while k < tail.len()
        invariant
            k <= tail@.len(),
            tail@.len() == 16,
            out@.len() == 3 + k,
            out@[0] == crate::utils::spec_u32_be(crc32c_of(crate::utils::spec_u32_be(
                spec_node_seed(ip, rand_byte),
            )))[0],
            out@[1] == crate::utils::spec_u32_be(crc32c_of(crate::utils::spec_u32_be(
                spec_node_seed(ip, rand_byte),
            )))[1],
            out@[2] == crate::utils::spec_u32_be(crc32c_of(crate::utils::spec_u32_be(
                spec_node_seed(ip, rand_byte),
            )))[2],
            forall|j: int| 0 <= j < k ==> #[trigger] out@[3 + j] == tail@[j],
        decreases tail@.len() - k,
    {
        out.push(tail[k]);
        k = k + 1;
    }
    out.push(rand_byte);
    proof {
        let be = crate::utils::spec_u32_be(crc32c_of(crate::utils::spec_u32_be(spec_node_seed(
            ip,
            rand_byte,
        ))));
        let rhs = be.take(3) + tail@ + seq![rand_byte];
        assert(out@.len() == 20 && rhs.len() == 20);
        assert forall|g: int| 0 <= g < 20 implies out@[g] == rhs[g] by {
            if 3 <= g < 19 {
                assert(out@[3 + (g - 3)] == tail@[g - 3]);
            }
        }
        assert(out@ =~= rhs);
    }
    out
}

/// Leading zero bits of a byte, eight for zero itself.
pub open spec fn spec_lz8(v: u8) -> int {
    if v >= 128 {
        0
    } else if v >= 64 {
        1
    } else if v >= 32 {
        2
    } else if v >= 16 {
        3
    } else if v >= 8 {
        4
    } else if v >= 4 {
        5
    } else if v >= 2 {
        6
    } else if v >= 1 {
        7
    } else {
        8
    }
}

/// Sum of the leading-zero counts of the bytewise difference of two
/// identities, over their common length.
pub open spec fn spec_xor_score(x: Seq<u8>, y: Seq<u8>) -> int
    decreases x.len() + y.len(),
{
    if x.len() == 0 || y.len() == 0 {
        0
    } else {
        spec_lz8((x[0] ^ y[0]) as u8) + spec_xor_score(x.skip(1), y.skip(1))
    }
}

/// Scores how close two identities are: the summed leading-zero counts of
/// their bytewise difference, higher meaning closer.
pub fn xor_distance_score(x: &Vec<u8>, y: &Vec<u8>) -> (r: u32)
    requires
        x@.len() <= 0x0fff_ffff,
        y@.len() <= 0x0fff_ffff,
    ensures
        r == spec_xor_score(x@, y@),
{
    let n = if x.len() <= y.len() {
        x.len()
    } else {
        y.len()
    };
    let mut total: u32 = 0;
    let mut i: usize = 0;
    proof {
        assert(x@.skip(0) =~= x@);
        assert(y@.skip(0) =~= y@);
        lemma_xor_score_nonneg(x@, y@);
    }
    while i < n
        invariant
            i <= n,
            n == if x@.len() <= y@.len() {
                x@.len()
            } else {
                y@.len()
            },
            x@.len() <= 0x0fff_ffff,
            total == spec_xor_score(x@, y@) - spec_xor_score(x@.skip(i as int), y@.skip(i as int)),
            spec_xor_score(x@.skip(i as int), y@.skip(i as int)) >= 0,
            total <= 8 * i,
        decreases n - i,
    {
        proof {
            lemma_xor_score_nonneg(x@.skip(i as int + 1), y@.skip(i as int + 1));
            lemma_xor_score_bound(x@.skip(i as int + 1), y@.skip(i as int + 1));
            assert(x@.skip(i as int).skip(1) =~= x@.skip(i as int + 1));
            assert(y@.skip(i as int).skip(1) =~= y@.skip(i as int + 1));
            assert(x@.skip(i as int)[0] == x@[i as int]);
            assert(y@.skip(i as int)[0] == y@[i as int]);
        }
        let v = x[i] ^ y[i];
        let lz: u32 = if v >= 128 {
            0
        } else if v >= 64 {
            1
        } else if v >= 32 {
            2
        } else if v >= 16 {
            3
        } else if v >= 8 {
            4
        } else if v >= 4 {
            5
        } else if v >= 2 {
            6
        } else if v >= 1 {
            7
        } else {
            8
        };
        total = total + lz;
        i = i + 1;
    }
    proof {
        assert(spec_xor_score(x@.skip(n as int), y@.skip(n as int)) == 0);
    }
    total
}

/// The score is never negative.
proof fn lemma_xor_score_nonneg(x: Seq<u8>, y: Seq<u8>)
    ensures
        spec_xor_score(x, y) >= 0,
    decreases x.len() + y.len(),
{
    if x.len() > 0 && y.len() > 0 {
        lemma_xor_score_nonneg(x.skip(1), y.skip(1));
    }
}

/// The score of each pair is at most eight bits.
proof fn lemma_xor_score_bound(x: Seq<u8>, y: Seq<u8>)
    ensures
        spec_xor_score(x, y) <= 8 * x.len(),
    decreases x.len() + y.len(),
{
    if x.len() > 0 && y.len() > 0 {
        lemma_xor_score_bound(x.skip(1), y.skip(1));
    }
}

/// Keeps, in order, the endpoints not yet visited.
pub open spec fn spec_keep_unvisited(nodes: Seq<PeerAddr>, visited: Seq<PeerAddr>) -> Seq<PeerAddr>
    decreases nodes.len(),
{
    if nodes.len() == 0 {
        Seq::empty()
    } else {
        spec_keep_unvisited(nodes.drop_last(), visited) + (if visited.contains(nodes.last()) {
            Seq::empty()
        } else {
            seq![nodes.last()]
        })
    }
}

/// Appends, in order, the endpoints of `new` not already present.
pub open spec fn spec_dedup_add(acc: Seq<PeerAddr>, new: Seq<PeerAddr>) -> Seq<PeerAddr>
    decreases new.len(),
{
    if new.len() == 0 {
        acc
    } else {
        spec_dedup_add(
            if acc.contains(new[0]) {
                acc
            } else {
                acc.push(new[0])
            },
            new.skip(1),
        )
    }
}

/// Whether a vector holds an endpoint.
fn contains_addr(v: &Vec<PeerAddr>, a: PeerAddr) -> (r: bool)
    ensures
        r == v@.contains(a),
{
    let mut k: usize = 0;
    while k < v.len()
        invariant
            k <= v@.len(),
            forall|l: int| 0 <= l < k ==> v@[l] != a,
        decreases v@.len() - k,
    {
        if v[k] == a {
            return true;
        }
        k = k + 1;
    }
    false
}

/// The node-lookup bookkeeping: which nodes remain to be asked, which were
/// asked already, and the peer endpoints gathered so far, up to a target
/// count.
pub struct NodeGatherer {
    /// Nodes not yet asked, in discovery order; the next to ask is last.
    pub unvisited: Vec<PeerAddr>,
    /// Nodes already handed out.
    pub visited: Vec<PeerAddr>,
    /// Peer endpoints gathered, in first-seen order, without duplicates.
    pub peers: Vec<PeerAddr>,
    /// Target number of peers; gathering is done once it is reached.
    pub max_peers: usize,
}

impl NodeGatherer {
    /// A gatherer that starts from the bootstrap nodes.
    pub fn new(bootstrap: Vec<PeerAddr>, max_peers: usize) -> (r: NodeGatherer)
        ensures
            r.unvisited@ == bootstrap@,
            r.visited@ == Seq::<PeerAddr>::empty(),
            r.peers@ == Seq::<PeerAddr>::empty(),
            r.max_peers == max_peers,
    {
        NodeGatherer { unvisited: bootstrap, visited: Vec::new(), peers: Vec::new(), max_peers }
    }

    /// Hands out the next node to ask and marks it visited; nothing is left
    /// once the frontier is empty.
    pub fn next_node(&mut self) -> (r: Option<PeerAddr>)
        ensures
            final(self).peers@ == old(self).peers@,
            final(self).max_peers == old(self).max_peers,
            match r {
                Some(a) => old(self).unvisited@.len() > 0 && a == old(self).unvisited@.last()
                    && final(self).unvisited@ == old(self).unvisited@.drop_last() && final(self).visited@ == old(self).visited@.push(a),
                None => old(self).unvisited@.len() == 0 && final(self).unvisited@ == old(
                    self,
                ).unvisited@ && final(self).visited@ == old(self).visited@,
            },
    {
        let popped = self.unvisited.pop();
        match popped {
            Some(a) => {
                self.visited.push(a);
                proof {
                    assert(self.unvisited@ =~= old(self).unvisited@.drop_last());
                }
                Some(a)
            },
            None => None,
        }
    }

    /// Folds one answer in: adds the newly heard peer endpoints without
    /// duplicates and queues the nodes not yet visited.  Reports whether
    /// the target peer count is reached.
    pub fn add_addresses(&mut self, new_peers: Vec<PeerAddr>, new_nodes: Vec<PeerAddr>) -> (done:
        bool)
        ensures
            final(self).max_peers == old(self).max_peers,
            final(self).visited@ == old(self).visited@,
            final(self).peers@ == spec_dedup_add(old(self).peers@, new_peers@),
            final(self).unvisited@ == old(self).unvisited@ + spec_keep_unvisited(
                new_nodes@,
                old(self).visited@,
            ),
            done == (final(self).peers@.len() >= old(self).max_peers),
    {
        let mut k: usize = 0;
        proof {
            assert(new_peers@.skip(0) =~= new_peers@);
        }
        while k < new_peers.len()
            invariant
                k <= new_peers@.len(),
                self.visited@ == old(self).visited@,
                self.unvisited@ == old(self).unvisited@,
                self.max_peers == old(self).max_peers,
                spec_dedup_add(self.peers@, new_peers@.skip(k as int)) == spec_dedup_add(
                    old(self).peers@,
                    new_peers@,
                ),
            decreases new_peers@.len() - k,
        {
            proof {
                assert(new_peers@.skip(k as int)[0] == new_peers@[k as int]);
                assert(new_peers@.skip(k as int).skip(1) =~= new_peers@.skip(k as int + 1));
            }
            let a = new_peers[k];
            if !contains_addr(&self.peers, a) {
                self.peers.push(a);
            }
            k = k + 1;
        }
        proof {
            assert(new_peers@.skip(new_peers@.len() as int) =~= Seq::<PeerAddr>::empty());
        }
        let mut k: usize = 0;
        proof {
            assert(new_nodes@.take(0) =~= Seq::<PeerAddr>::empty());
            assert(self.unvisited@ =~= old(self).unvisited@ + spec_keep_unvisited(
                new_nodes@.take(0),
                old(self).visited@,
            ));
        }
        while k < new_nodes.len()
            invariant
                k <= new_nodes@.len(),
                self.visited@ == old(self).visited@,
                self.max_peers == old(self).max_peers,
                self.peers@ == spec_dedup_add(old(self).peers@, new_peers@),
                self.unvisited@ == old(self).unvisited@ + spec_keep_unvisited(
                    new_nodes@.take(k as int),
                    old(self).visited@,
                ),
            decreases new_nodes@.len() - k,
        {
            proof {
                assert(new_nodes@.take(k as int + 1).drop_last() =~= new_nodes@.take(k as int));
                assert(new_nodes@.take(k as int + 1).last() == new_nodes@[k as int]);
            }
            let a = new_nodes[k];
            if !contains_addr(&self.visited, a) {
                self.unvisited.push(a);
                proof {
                    assert(self.unvisited@ =~= old(self).unvisited@ + spec_keep_unvisited(
                        new_nodes@.take(k as int + 1),
                        old(self).visited@,
                    ));
                }
            } else {
                proof {
                    assert(self.unvisited@ =~= old(self).unvisited@ + spec_keep_unvisited(
                        new_nodes@.take(k as int + 1),
                        old(self).visited@,
                    ));
                }
            }
            k = k + 1;
        }
        proof {
            assert(new_nodes@.take(new_nodes@.len() as int) =~= new_nodes@);
        }
        self.peers.len() >= self.max_peers
    }
}

} // verus!
