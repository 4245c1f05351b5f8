//! The binary announce protocol spoken with a tracker, and the peer records
//! it yields.  Building and checking the datagrams is plain byte logic; the
//! socket work happens outside the library.

use crate::engine::spec_client_peer_id;
use crate::metadata::Metadata;
use crate::utils::{
    push_u16_be, push_u32_be, push_u64_be, spec_u16_be, spec_u16_of, spec_u32_be, spec_u32_of,
    spec_u64_be, spec_u64_of, u16_from_be, u32_from_be,
};
use vstd::prelude::*;

verus! {

/// The decimal digit character of one digit value.
pub open spec fn spec_digit(d: int) -> char {
    if d == 0 {
        '0'
    } else if d == 1 {
        '1'
    } else if d == 2 {
        '2'
    } else if d == 3 {
        '3'
    } else if d == 4 {
        '4'
    } else if d == 5 {
        '5'
    } else if d == 6 {
        '6'
    } else if d == 7 {
        '7'
    } else if d == 8 {
        '8'
    } else {
        '9'
    }
}

/// The decimal rendering of a non-negative number.
pub open spec fn spec_dec(n: int) -> Seq<char>
    decreases n,
{
    if n < 10 {
        seq![spec_digit(n)]
    } else {
        spec_dec(n / 10) + seq![spec_digit(n % 10)]
    }
}

/// One decimal digit as a string.
fn digit_str(d: u8) -> (r: String)
    requires
        d < 10,
    ensures
        r@ == seq![spec_digit(d as int)],
{
    if d == 0 {
        proof {
            reveal_strlit("0");
        }
        let r = String::from_str("0");
        proof {
            assert(r@ =~= seq![spec_digit(0)]);
        }
        r
    } else if d == 1 {
        proof {
            reveal_strlit("1");
        }
        let r = String::from_str("1");
        proof {
            assert(r@ =~= seq![spec_digit(1)]);
        }
        r
    } else if d == 2 {
        proof {
            reveal_strlit("2");
        }
        let r = String::from_str("2");
        proof {
            assert(r@ =~= seq![spec_digit(2)]);
        }
        r
    } else if d == 3 {
        proof {
            reveal_strlit("3");
        }
        let r = String::from_str("3");
        proof {
            assert(r@ =~= seq![spec_digit(3)]);
        }
        r
    } else if d == 4 {
        proof {
            reveal_strlit("4");
        }
        let r = String::from_str("4");
        proof {
            assert(r@ =~= seq![spec_digit(4)]);
        }
        r
    } else if d == 5 {
        proof {
            reveal_strlit("5");
        }
        let r = String::from_str("5");
        proof {
            assert(r@ =~= seq![spec_digit(5)]);
        }
        r
    } else if d == 6 {
        proof {
            reveal_strlit("6");
        }
        let r = String::from_str("6");
        proof {
            assert(r@ =~= seq![spec_digit(6)]);
        }
        r
    } else if d == 7 {
        proof {
            reveal_strlit("7");
        }
        let r = String::from_str("7");
        proof {
            assert(r@ =~= seq![spec_digit(7)]);
        }
        r
    } else if d == 8 {
        proof {
            reveal_strlit("8");
        }
        let r = String::from_str("8");
        proof {
            assert(r@ =~= seq![spec_digit(8)]);
        }
        r
    } else {
        proof {
            reveal_strlit("9");
        }
        let r = String::from_str("9");
        proof {
            assert(r@ =~= seq![spec_digit(9)]);
        }
        r
    }
}

/// Renders a number in decimal.
pub fn u16_dec(n: u16) -> (r: String)
    ensures
        r@ == spec_dec(n as int),
    decreases n,
{
    if n < 10 {
        digit_str(n as u8)
    } else {
        let s = u16_dec(n / 10);
        let d = digit_str((n % 10) as u8);
        s.concat(d.as_str())
    }
}

/// The dotted-decimal rendering of an IPv4 address held as its 32-bit value.
pub open spec fn spec_ipv4(ip: u32) -> Seq<char> {
    spec_dec((ip >> 24) as int) + seq!['.'] + spec_dec(((ip >> 16) & 0xff) as int) + seq!['.']
        + spec_dec(((ip >> 8) & 0xff) as int) + seq!['.'] + spec_dec((ip & 0xff) as int)
}

/// Renders an IPv4 address in dotted decimal.
pub fn ipv4_string(ip: u32) -> (r: String)
    ensures
        r@ == spec_ipv4(ip),
{
    proof {
        reveal_strlit(".");
        assert(ip >> 24 < 256 && (ip >> 16) & 0xff < 256 && (ip >> 8) & 0xff < 256 && ip & 0xff
            < 256) by (bit_vector);
    }
    let mut s = u16_dec((ip >> 24) as u16);
    s.append(".");
    let o2 = u16_dec(((ip >> 16) & 0xff) as u16);
    s.append(o2.as_str());
    s.append(".");
    let o3 = u16_dec(((ip >> 8) & 0xff) as u16);
    s.append(o3.as_str());
    s.append(".");
    let o4 = u16_dec((ip & 0xff) as u16);
    s.append(o4.as_str());
    proof {
        assert("."@ =~= seq!['.']);
        assert(s@ =~= spec_ipv4(ip));
    }
    s
}

/// One peer endpoint a tracker announced.
pub struct PeerInfo {
    pub peer_id: Option<Vec<u8>>,
    pub ip: String,
    pub port: u16,
}

impl PeerInfo {
    /// The `host:port` rendering used for the connect call.
    pub fn to_string(&self) -> (r: String)
        ensures
            r@ == self.ip@ + seq![':'] + spec_dec(self.port as int),
    {
        proof {
            reveal_strlit(":");
        }
        let mut s = self.ip.clone();
        s.append(":");
        let p = u16_dec(self.port);
        s.append(p.as_str());
        proof {
            assert(":"@ =~= seq![':']);
            assert(s@ =~= self.ip@ + seq![':'] + spec_dec(self.port as int));
        }
        s
    }
}

/// A tracker's answer: the poll interval and the peer endpoints.
pub struct TrackerInfo {
    pub interval: u32,
    pub tracker_id: Option<String>,
    pub peers: Vec<PeerInfo>,
}

impl TrackerInfo {
    /// Reads a tracker announce answer from its binary layout: interval at
    /// byte 8, then peer and seed counts, then 6-byte compact endpoints.
    /// An answer shorter than its 20-byte header is rejected.
    pub fn from_raw(raw: Vec<u8>) -> (r: Result<TrackerInfo, ()>)
        ensures
            match r {
                Ok(t) => {
                    &&& raw@.len() >= 20
                    &&& t.interval == spec_u32_of(raw@[8], raw@[9], raw@[10], raw@[11])
                    &&& t.tracker_id is None
                    &&& t.peers@.len() == (raw@.len() - 20) / 6
                    &&& (forall|k: int|
                        0 <= k < t.peers@.len() ==> {
                            let off = 20 + 6 * k;
                            &&& (#[trigger] t.peers@[k]).peer_id is None
                            &&& t.peers@[k].ip@ == spec_ipv4(
                                spec_u32_of(raw@[off], raw@[off + 1], raw@[off + 2], raw@[off + 3]),
                            )
                            &&& t.peers@[k].port == spec_u16_of(raw@[off + 4], raw@[off + 5])
                        })
                },
                Err(_) => raw@.len() < 20,
            },
    {
        if raw.len() < 20 {
            return Err(());
        }
        let interval = u32_from_be(raw[8], raw[9], raw[10], raw[11]);
        let rlen = raw.len();
        let n_peers = (rlen - 20) / 6;
        let mut peers: Vec<PeerInfo> = Vec::new();
        let mut k: usize = 0;
        while k < n_peers
            invariant
                k <= n_peers,
                raw@.len() >= 20,
                rlen == raw@.len(),
                n_peers == (raw@.len() - 20) / 6,
                peers@.len() == k,
                forall|j: int|
                    0 <= j < k ==> {
                        let off = 20 + 6 * j;
                        &&& (#[trigger] peers@[j]).peer_id is None
                        &&& peers@[j].ip@ == spec_ipv4(
                            spec_u32_of(raw@[off], raw@[off + 1], raw@[off + 2], raw@[off + 3]),
                        )
                        &&& peers@[j].port == spec_u16_of(raw@[off + 4], raw@[off + 5])
                    },
            decreases n_peers - k,
        {
            proof {
                assert(6 * n_peers <= rlen - 20);
                assert(6 * (k + 1) <= rlen - 20);
            }
            let off = 20 + 6 * k;
            let ip_val = u32_from_be(raw[off], raw[off + 1], raw[off + 2], raw[off + 3]);
            let port = u16_from_be(raw[off + 4], raw[off + 5]);
            let ip = ipv4_string(ip_val);
            peers.push(PeerInfo { peer_id: None, ip, port });
            k = k + 1;
        }
        Ok(TrackerInfo { interval, tracker_id: None, peers })
    }
}

/// The magic protocol identifier that opens a tracker connect datagram.
pub const CONNECT_PROTOCOL_ID: u64 = 0x41727101980;

/// Builds the 16-byte connect datagram: the magic protocol id, the connect
/// action, and the caller's transaction id.
pub fn connect_msg(trans_id: u32) -> (r: Vec<u8>)
    ensures
        r@ == spec_u64_be(CONNECT_PROTOCOL_ID) + spec_u32_be(0) + spec_u32_be(trans_id),
        r@.len() == 16,
{
    let mut out: Vec<u8> = Vec::new();
    push_u64_be(&mut out, CONNECT_PROTOCOL_ID);
    push_u32_be(&mut out, 0);
    push_u32_be(&mut out, trans_id);
    out
}

/// Checks the 16-byte connect answer: a connect action echoing the caller's
/// transaction id yields the connection id; anything else is rejected.
pub fn check_connect_response(buf: &Vec<u8>, trans_id: u32) -> (r: Result<u64, ()>)
    requires
        buf@.len() >= 16,
    ensures
        match r {
            Ok(cid) => spec_u32_of(buf@[0], buf@[1], buf@[2], buf@[3]) == 0 && spec_u32_of(
                buf@[4],
                buf@[5],
                buf@[6],
                buf@[7],
            ) == trans_id && cid == spec_u64_of(buf@.subrange(8, 16)),
            Err(_) => spec_u32_of(buf@[0], buf@[1], buf@[2], buf@[3]) != 0 || spec_u32_of(
                buf@[4],
                buf@[5],
                buf@[6],
                buf@[7],
            ) != trans_id,
        },
{
    let action = u32_from_be(buf[0], buf[1], buf[2], buf[3]);
    let trans_echo = u32_from_be(buf[4], buf[5], buf[6], buf[7]);
    if action != 0 || trans_echo != trans_id {
        return Err(());
    }
    let hi = u32_from_be(buf[8], buf[9], buf[10], buf[11]);
    let lo = u32_from_be(buf[12], buf[13], buf[14], buf[15]);
    let cid = ((hi as u64) << 32) | (lo as u64);
    proof {
        let s = buf@.subrange(8, 16);
        assert(forall|j: int| 0 <= j < 8 ==> #[trigger] s[j] == buf@[8 + j]);
        lemma_u64_halves(buf@[8], buf@[9], buf@[10], buf@[11], buf@[12], buf@[13], buf@[14],
            buf@[15]);
    }
    Ok(cid)
}

/// Splitting a big-endian 64-bit read into two 32-bit reads recombines to
/// the same value.
proof fn lemma_u64_halves(b0: u8, b1: u8, b2: u8, b3: u8, b4: u8, b5: u8, b6: u8, b7: u8)
    ensures
        ((spec_u32_of(b0, b1, b2, b3) as u64) << 32) | (spec_u32_of(b4, b5, b6, b7) as u64)
            == spec_u64_of(seq![b0, b1, b2, b3, b4, b5, b6, b7]),
{
    let s = seq![b0, b1, b2, b3, b4, b5, b6, b7];
    assert(s[0] == b0 && s[1] == b1 && s[2] == b2 && s[3] == b3 && s[4] == b4 && s[5] == b5 && s[6]
        == b6 && s[7] == b7);
    let hi = spec_u32_of(b0, b1, b2, b3);
    let lo = spec_u32_of(b4, b5, b6, b7);
    assert(((hi as u64) << 32) | (lo as u64) == (((b0 as u64) << 56) | ((b1 as u64) << 48) | ((
    b2 as u64) << 40) | ((b3 as u64) << 32) | ((b4 as u64) << 24) | ((b5 as u64) << 16) | ((
    b6 as u64) << 8) | (b7 as u64)) as u64) by (bit_vector)
        requires
            hi == (((b0 as u32) << 24) | ((b1 as u32) << 16) | ((b2 as u32) << 8) | (b3 as u32))
                as u32,
            lo == (((b4 as u32) << 24) | ((b5 as u32) << 16) | ((b6 as u32) << 8) | (b7 as u32))
                as u32,
    ;
}

/// Builds the 98-byte announce datagram for one torrent: the connection and
/// transaction ids, the content identity hash, the client identity (the
/// fixed one when none is given), the transfer counters, and the listen
/// port.
pub fn announce_msg(md: &Metadata, conn_id: u64, trans_id: u32, peer_id: Option<Vec<u8>>) -> (r:
    Vec<u8>)
    requires
        (md.info.piece_length as int) * (md.info.pieces@.len() as int) <= u64::MAX,
    ensures
        r@ == spec_u64_be(conn_id) + spec_u32_be(1) + spec_u32_be(trans_id) + md.info_hash@
            + (match peer_id {
            Some(v) => v@,
            None => spec_client_peer_id(),
        }) + spec_u64_be(0) + spec_u64_be(
            ((md.info.piece_length as int) * (md.info.pieces@.len() as int)) as u64,
        ) + spec_u64_be(0) + spec_u32_be(0) + spec_u32_be(0) + spec_u32_be(12345) + seq![
            255u8,
            255,
            255,
            255,
        ] + spec_u16_be(3000),
{
    let mut out: Vec<u8> = Vec::new();
    push_u64_be(&mut out, conn_id);
    push_u32_be(&mut out, 1);
    push_u32_be(&mut out, trans_id);
    let mut k: usize = 0;
    let ghost head = out@;
    while k < md.info_hash.len()
        invariant
            k <= md.info_hash@.len(),
            out@ == head + md.info_hash@.take(k as int),
        decreases md.info_hash@.len() - k,
    {
        out.push(md.info_hash[k]);
        proof {
            assert(out@ =~= head + md.info_hash@.take(k + 1));
        }
        k = k + 1;
    }
    proof {
        assert(md.info_hash@.take(md.info_hash@.len() as int) =~= md.info_hash@);
    }
    let pid = match peer_id {
        None => crate::engine::client_peer_id(),
        Some(v) => v,
    };
    let mut k: usize = 0;
    let ghost head2 = out@;
    while k < pid.len()
        invariant
            k <= pid@.len(),
            out@ == head2 + pid@.take(k as int),
        decreases pid@.len() - k,
    {
        out.push(pid[k]);
        proof {
            assert(out@ =~= head2 + pid@.take(k + 1));
        }
        k = k + 1;
    }
    proof {
        assert(pid@.take(pid@.len() as int) =~= pid@);
    }
    // downloaded
    push_u64_be(&mut out, 0);
    // left: the declared piece length across the hash list, as announced
    let left: u64 = (md.info.piece_length as u64) * (md.info.pieces.len() as u64);
    push_u64_be(&mut out, left);
    // uploaded
    push_u64_be(&mut out, 0);
    // event
    push_u32_be(&mut out, 0);
    // ip: let the tracker read the source address
    push_u32_be(&mut out, 0);
    // key
    push_u32_be(&mut out, 12345);
    // num_want: no preference
    out.push(255);
    out.push(255);
    out.push(255);
    out.push(255);
    // port
    push_u16_be(&mut out, 3000);
    proof {
        assert(out@ =~= spec_u64_be(conn_id) + spec_u32_be(1) + spec_u32_be(trans_id)
            + md.info_hash@ + pid@ + spec_u64_be(0) + spec_u64_be(left) + spec_u64_be(0)
            + spec_u32_be(0) + spec_u32_be(0) + spec_u32_be(12345) + seq![255u8, 255, 255, 255]
            + spec_u16_be(3000));
    }
    out
}

} // verus!
