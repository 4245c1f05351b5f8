//! Shared helpers: big-endian integer coding, peer addresses, bit counting.

use vstd::prelude::*;

verus! {

/// The big-endian four-byte encoding of a `u32`.
pub open spec fn spec_u32_be(n: u32) -> Seq<u8> {
    seq![
        (n >> 24) as u8,
        ((n >> 16) & 0xff) as u8,
        ((n >> 8) & 0xff) as u8,
        (n & 0xff) as u8,
    ]
}

/// The `u32` denoted by four bytes read big-endian.
pub open spec fn spec_u32_of(b0: u8, b1: u8, b2: u8, b3: u8) -> u32 {
    (((b0 as u32) << 24) | ((b1 as u32) << 16) | ((b2 as u32) << 8) | (b3 as u32)) as u32
}

/// The big-endian two-byte encoding of a `u16`.
pub open spec fn spec_u16_be(n: u16) -> Seq<u8> {
    seq![(n >> 8) as u8, (n & 0xff) as u8]
}

/// The `u16` denoted by two bytes read big-endian.
pub open spec fn spec_u16_of(b0: u8, b1: u8) -> u16 {
    (((b0 as u16) << 8) | (b1 as u16)) as u16
}

/// The big-endian eight-byte encoding of a `u64`.
pub open spec fn spec_u64_be(n: u64) -> Seq<u8> {
    seq![
        (n >> 56) as u8,
        ((n >> 48) & 0xff) as u8,
        ((n >> 40) & 0xff) as u8,
        ((n >> 32) & 0xff) as u8,
        ((n >> 24) & 0xff) as u8,
        ((n >> 16) & 0xff) as u8,
        ((n >> 8) & 0xff) as u8,
        (n & 0xff) as u8,
    ]
}

/// The `u64` denoted by eight bytes read big-endian.
pub open spec fn spec_u64_of(b: Seq<u8>) -> u64
    recommends
        b.len() == 8,
{
    (((b[0] as u64) << 56) | ((b[1] as u64) << 48) | ((b[2] as u64) << 40) | ((b[3] as u64) << 32)
        | ((b[4] as u64) << 24) | ((b[5] as u64) << 16) | ((b[6] as u64) << 8) | (b[7] as u64)) as u64
}

/// Decoding four big-endian bytes and re-encoding them gives the bytes back.
pub proof fn lemma_u32_be_of(b0: u8, b1: u8, b2: u8, b3: u8)
    ensures
        spec_u32_be(spec_u32_of(b0, b1, b2, b3)) == seq![b0, b1, b2, b3],
{
    let n = spec_u32_of(b0, b1, b2, b3);
    assert((n >> 24) as u8 == b0 && ((n >> 16) & 0xff) as u8 == b1 && ((n >> 8) & 0xff) as u8 == b2
        && (n & 0xff) as u8 == b3) by (bit_vector)
        requires
            n == (((b0 as u32) << 24) | ((b1 as u32) << 16) | ((b2 as u32) << 8) | (b3 as u32))
                as u32,
    ;
    assert(spec_u32_be(n) =~= seq![b0, b1, b2, b3]);
}

/// Encoding a `u32` big-endian and decoding the four bytes gives the value back.
pub proof fn lemma_u32_of_be(n: u32)
    ensures
        spec_u32_of(
            spec_u32_be(n)[0],
            spec_u32_be(n)[1],
            spec_u32_be(n)[2],
            spec_u32_be(n)[3],
        ) == n,
{
    let b0 = (n >> 24) as u8;
    let b1 = ((n >> 16) & 0xff) as u8;
    let b2 = ((n >> 8) & 0xff) as u8;
    let b3 = (n & 0xff) as u8;
    assert((((b0 as u32) << 24) | ((b1 as u32) << 16) | ((b2 as u32) << 8) | (b3 as u32)) as u32
        == n) by (bit_vector)
        requires
            b0 == (n >> 24) as u8 && b1 == ((n >> 16) & 0xff) as u8 && b2 == ((n >> 8) & 0xff) as u8
                && b3 == (n & 0xff) as u8,
    ;
}

/// Reads a `u32` from four big-endian bytes.
pub fn u32_from_be(b0: u8, b1: u8, b2: u8, b3: u8) -> (r: u32)
    ensures
        r == spec_u32_of(b0, b1, b2, b3),
{
    ((b0 as u32) << 24) | ((b1 as u32) << 16) | ((b2 as u32) << 8) | (b3 as u32)
}

/// Reads a `u16` from two big-endian bytes.
pub fn u16_from_be(b0: u8, b1: u8) -> (r: u16)
    ensures
        r == spec_u16_of(b0, b1),
{
    ((b0 as u16) << 8) | (b1 as u16)
}

/// Appends the big-endian encoding of a `u32` to a byte vector.
pub fn push_u32_be(out: &mut Vec<u8>, n: u32)
    ensures
        final(out)@ == old(out)@ + spec_u32_be(n),
{
    out.push((n >> 24) as u8);
    out.push(((n >> 16) & 0xff) as u8);
    out.push(((n >> 8) & 0xff) as u8);
    out.push((n & 0xff) as u8);
    assert(out@ =~= old(out)@ + spec_u32_be(n));
}

/// Appends the big-endian encoding of a `u16` to a byte vector.
pub fn push_u16_be(out: &mut Vec<u8>, n: u16)
    ensures
        final(out)@ == old(out)@ + spec_u16_be(n),
{
    out.push((n >> 8) as u8);
    out.push((n & 0xff) as u8);
    assert(out@ =~= old(out)@ + spec_u16_be(n));
}

/// Appends the big-endian encoding of a `u64` to a byte vector.
pub fn push_u64_be(out: &mut Vec<u8>, n: u64)
    ensures
        final(out)@ == old(out)@ + spec_u64_be(n),
{
    out.push((n >> 56) as u8);
    out.push(((n >> 48) & 0xff) as u8);
    out.push(((n >> 40) & 0xff) as u8);
    out.push(((n >> 32) & 0xff) as u8);
    out.push(((n >> 24) & 0xff) as u8);
    out.push(((n >> 16) & 0xff) as u8);
    out.push(((n >> 8) & 0xff) as u8);
    out.push((n & 0xff) as u8);
    assert(out@ =~= old(out)@ + spec_u64_be(n));
}

/// A peer endpoint: an IPv4 address held as its 32-bit value, and a port.
#[derive(PartialEq, Eq, Structural, Clone, Copy, Debug)]
pub struct PeerAddr {
    pub ip: u32,
    pub port: u16,
}

/// Reads a peer endpoint from the 6-byte compact form: four address bytes
/// followed by a big-endian port.
pub fn addr_from_bytes(bytes: &Vec<u8>) -> (r: Result<PeerAddr, ()>)
    ensures
        match r {
            Ok(a) => bytes@.len() >= 6 && a.ip == spec_u32_of(
                bytes@[0],
                bytes@[1],
                bytes@[2],
                bytes@[3],
            ) && a.port == spec_u16_of(bytes@[4], bytes@[5]),
            Err(_) => bytes@.len() < 6,
        },
{
    if bytes.len() < 6 {
        return Err(());
    }
    let ip = u32_from_be(bytes[0], bytes[1], bytes[2], bytes[3]);
    let port = u16_from_be(bytes[4], bytes[5]);
    Ok(PeerAddr { ip, port })
}

/// How many entries of a boolean vector are set.
pub open spec fn spec_count_ones(s: Seq<bool>) -> int
    decreases s.len(),
{
    if s.len() == 0 {
        0
    } else {
        spec_count_ones(s.drop_last()) + if s.last() {
            1int
        } else {
            0int
        }
    }
}

/// The count of set entries never exceeds the length.
pub proof fn lemma_count_ones_le_len(s: Seq<bool>)
    ensures
        0 <= spec_count_ones(s) <= s.len(),
    decreases s.len(),
{
    if s.len() > 0 {
        lemma_count_ones_le_len(s.drop_last());
    }
}

/// Counts the set entries of a boolean vector.
pub fn count_ones(v: &Vec<bool>) -> (r: u32)
    requires
        v@.len() <= u32::MAX,
    ensures
        r == spec_count_ones(v@),
{
    let mut r: u32 = 0;
    let mut i: usize = 0;
    proof {
        assert(v@.subrange(0, 0) =~= Seq::<bool>::empty());
    }
    while i < v.len()
        invariant
            i <= v@.len(),
            v@.len() <= u32::MAX,
            r == spec_count_ones(v@.subrange(0, i as int)),
        decreases v@.len() - i,
    {
        proof {
            lemma_count_ones_le_len(v@.subrange(0, i as int));
            assert(v@.subrange(0, i + 1).drop_last() =~= v@.subrange(0, i as int));
        }
        if v[i] {
            r = r + 1;
        }
        i = i + 1;
    }
    proof {
        assert(v@.subrange(0, v@.len() as int) =~= v@);
    }
    r
}

} // verus!
