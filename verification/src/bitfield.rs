//! Piece bitfields: an unpacked vector of booleans, and the packed byte form
//! used both on the wire and in the persistent sidecar file.  Bits are stored
//! big-endian within each byte: bit 0 is the most significant bit of byte 0.

use vstd::prelude::*;

verus! {

/// Bit `i` of a packed byte string, most-significant bit first.
pub open spec fn spec_packed_bit(bytes: Seq<u8>, i: int) -> bool
    recommends
        0 <= i < 8 * bytes.len(),
{
    (bytes[i / 8] >> (7 - (i % 8)) as u8) & 1 == 1
}

/// Set of piece indices the client or a peer holds.
pub struct Bitfield {
    bits: Vec<bool>,
}

impl Bitfield {
    /// The bits as a mathematical sequence.
    pub closed spec fn view(&self) -> Seq<bool> {
        self.bits@
    }

    /// A bitfield of the given size with every bit clear.
    pub fn newt(size: usize) -> (r: Bitfield)
        ensures
            r@.len() == size,
            forall|i: int| 0 <= i < size ==> !r@[i],
    {
        let mut bits: Vec<bool> = Vec::new();
        let mut k: usize = 0;
        while k < size
            invariant
                k <= size,
                bits@.len() == k,
                forall|i: int| 0 <= i < k ==> !bits@[i],
            decreases size - k,
        {
            bits.push(false);
            k = k + 1;
        }
        Bitfield { bits }
    }

    /// A bitfield owning the given bits.
    pub fn from_bits(bits: Vec<bool>) -> (r: Bitfield)
        ensures
            r@ == bits@,
    {
        Bitfield { bits }
    }

    /// Number of bits.
    pub fn len(&self) -> (r: usize)
        ensures
            r == self@.len(),
    {
        self.bits.len()
    }

    /// Reads one bit.
    pub fn get(&self, index: usize) -> (r: bool)
        requires
            index < self@.len(),
        ensures
            r == self@[index as int],
    {
        self.bits[index]
    }

    /// Writes one bit, leaving every other bit unchanged.
    pub fn set(&mut self, index: usize, val: bool)
        requires
            index < old(self)@.len(),
        ensures
            final(self)@ == old(self)@.update(index as int, val),
    {
        self.bits.set(index, val);
    }

    /// The bitwise union of two bitfields, truncated to the shorter one.
    pub fn bitor(self, rhs: Bitfield) -> (r: Bitfield)
        ensures
            r@.len() == if self@.len() <= rhs@.len() {
                self@.len()
            } else {
                rhs@.len()
            },
            forall|i: int| 0 <= i < r@.len() ==> r@[i] == (self@[i] || rhs@[i]),
    {
        let mut out: Vec<bool> = Vec::new();
        let n = if self.bits.len() <= rhs.bits.len() {
            self.bits.len()
        } else {
            rhs.bits.len()
        };
        let mut k: usize = 0;
        while k < n
            invariant
                k <= n,
                n <= self.bits@.len(),
                n <= rhs.bits@.len(),
                out@.len() == k,
                forall|i: int| 0 <= i < k ==> out@[i] == (self.bits@[i] || rhs.bits@[i]),
            decreases n - k,
        {
            out.push(self.bits[k] || rhs.bits[k]);
            k = k + 1;
        }
        Bitfield { bits: out }
    }

    /// Unions the bits of `rhs` into `self`, truncating to the shorter side.
    pub fn bitor_assign(&mut self, rhs: Bitfield)
        ensures
            final(self)@.len() == if old(self)@.len() <= rhs@.len() {
                old(self)@.len()
            } else {
                rhs@.len()
            },
            forall|i: int|
                0 <= i < final(self)@.len() ==> final(self)@[i] == (old(self)@[i] || rhs@[i]),
    {
        let n = if self.bits.len() <= rhs.bits.len() {
            self.bits.len()
        } else {
            rhs.bits.len()
        };
        let mut out: Vec<bool> = Vec::new();
        let mut k: usize = 0;
        while k < n
            invariant
                k <= n,
                n <= self.bits@.len(),
                n <= rhs.bits@.len(),
                self.bits@ == old(self).bits@,
                out@.len() == k,
                forall|i: int| 0 <= i < k ==> out@[i] == (self.bits@[i] || rhs.bits@[i]),
            decreases n - k,
        {
            out.push(self.bits[k] || rhs.bits[k]);
            k = k + 1;
        }
        self.bits = out;
    }
}

/// Packs bits into bytes, most-significant bit first, padding the final byte
/// with zeroes.
#[verifier::rlimit(100)]
pub fn pack_bits(bits: &Vec<bool>) -> (r: Vec<u8>)
    requires
        bits@.len() <= usize::MAX - 7,
    ensures
        r@.len() == (bits@.len() + 7) / 8,
        forall|i: int| 0 <= i < bits@.len() ==> spec_packed_bit(r@, i) == bits@[i],
        forall|i: int| bits@.len() <= i < 8 * r@.len() ==> !spec_packed_bit(r@, i),
{
    let n = bits.len();
    let n_bytes = (n + 7) / 8;
    let mut out: Vec<u8> = Vec::new();
    let mut b: usize = 0;
    while b < n_bytes
        invariant
            b <= n_bytes,
            n == bits@.len(),
            n <= usize::MAX - 7,
            n_bytes == (n + 7) / 8,
            out@.len() == b,
            forall|i: int| 0 <= i < 8 * b && i < n ==> spec_packed_bit(out@, i) == bits@[i],
            forall|i: int| 0 <= i < 8 * b && i >= n ==> !spec_packed_bit(out@, i),
        decreases n_bytes - b,
    {
        let base = 8 * b;
        let g0 = base < n && bits[base];
        let g1 = base + 1 < n && bits[base + 1];
        let g2 = base + 2 < n && bits[base + 2];
        let g3 = base + 3 < n && bits[base + 3];
        let g4 = base + 4 < n && bits[base + 4];
        let g5 = base + 5 < n && bits[base + 5];
        let g6 = base + 6 < n && bits[base + 6];
        let g7 = base + 7 < n && bits[base + 7];
        let c0: u8 = if g0 { 1 } else { 0 };
        let c1: u8 = if g1 { 1 } else { 0 };
        let c2: u8 = if g2 { 1 } else { 0 };
        let c3: u8 = if g3 { 1 } else { 0 };
        let c4: u8 = if g4 { 1 } else { 0 };
        let c5: u8 = if g5 { 1 } else { 0 };
        let c6: u8 = if g6 { 1 } else { 0 };
        let c7: u8 = if g7 { 1 } else { 0 };
        let byte: u8 = c0 * 128 + c1 * 64 + c2 * 32 + c3 * 16 + c4 * 8 + c5 * 4 + c6 * 2 + c7;
        proof {
            assert((byte >> 7u8) & 1 == c0 && (byte >> 6u8) & 1 == c1 && (byte >> 5u8) & 1 == c2
                && (byte >> 4u8) & 1 == c3 && (byte >> 3u8) & 1 == c4 && (byte >> 2u8) & 1 == c5
                && (byte >> 1u8) & 1 == c6 && (byte >> 0u8) & 1 == c7) by (bit_vector)
                requires
                    byte == c0 * 128 + c1 * 64 + c2 * 32 + c3 * 16 + c4 * 8 + c5 * 4 + c6 * 2 + c7,
                    c0 <= 1 && c1 <= 1 && c2 <= 1 && c3 <= 1,
                    c4 <= 1 && c5 <= 1 && c6 <= 1 && c7 <= 1,
            ;
        }
        out.push(byte);
        proof {
            let ghost prev = out@.drop_last();
            assert forall|i: int| 0 <= i < 8 * b implies spec_packed_bit(out@, i)
                == spec_packed_bit(prev, i) by {
                assert(0 <= i / 8 < b);
                assert(out@[i / 8] == prev[i / 8]);
            };
            assert(spec_packed_bit(out@, 8 * b + 0) == g0);
            assert(spec_packed_bit(out@, 8 * b + 1) == g1);
            assert(spec_packed_bit(out@, 8 * b + 2) == g2);
            assert(spec_packed_bit(out@, 8 * b + 3) == g3);
            assert(spec_packed_bit(out@, 8 * b + 4) == g4);
            assert(spec_packed_bit(out@, 8 * b + 5) == g5);
            assert(spec_packed_bit(out@, 8 * b + 6) == g6);
            assert(spec_packed_bit(out@, 8 * b + 7) == g7);
        }
        b = b + 1;
    }
    out
}

/// Unpacks at most `n` bits from a packed byte string, most-significant bit
/// first; the result is shorter than `n` when the bytes run out.
pub fn unpack_bits(bytes: &Vec<u8>, n: usize) -> (r: Vec<bool>)
    ensures
        r@.len() == if n <= 8 * bytes@.len() {
            n as int
        } else {
            8 * bytes@.len() as int
        },
        forall|i: int| 0 <= i < r@.len() ==> r@[i] == spec_packed_bit(bytes@, i),
{
    let mut out: Vec<bool> = Vec::new();
    let limit = if bytes.len() <= usize::MAX / 8 && n > 8 * bytes.len() {
        8 * bytes.len()
    } else {
        n
    };
    proof {
        assert(limit == if n <= 8 * bytes@.len() {
            n as int
        } else {
            8 * bytes@.len() as int
        });
    }
    let mut i: usize = 0;
    while i < limit
        invariant
            i <= limit,
            limit <= 8 * bytes@.len(),
            out@.len() == i,
            forall|j: int| 0 <= j < i ==> out@[j] == spec_packed_bit(bytes@, j),
        decreases limit - i,
    {
        let byte = bytes[i / 8];
        let shift = (7 - (i % 8)) as u8;
        out.push((byte >> shift) & 1 == 1);
        i = i + 1;
    }
    out
}

/// Sets bit `index` of a packed byte string, leaving every other bit
/// unchanged.
pub fn set_packed_bit(bytes: &mut Vec<u8>, index: usize)
    requires
        index < 8 * old(bytes)@.len(),
    ensures
        final(bytes)@.len() == old(bytes)@.len(),
        spec_packed_bit(final(bytes)@, index as int),
        forall|i: int|
            0 <= i < 8 * old(bytes)@.len() && i != index ==> spec_packed_bit(final(bytes)@, i)
                == spec_packed_bit(old(bytes)@, i),
{
    let byte_index = index / 8;
    let k = (index % 8) as u8;
    let shift: u8 = 7 - k;
    let old_byte = bytes[byte_index];
    let new_byte = old_byte | (1u8 << shift);
    bytes.set(byte_index, new_byte);
    proof {
        assert(((old_byte | (1u8 << shift)) >> shift) & 1 == 1) by (bit_vector)
            requires
                shift < 8,
        ;
        assert forall|i: int|
            0 <= i < 8 * old(bytes)@.len() && i != index implies spec_packed_bit(bytes@, i)
            == spec_packed_bit(old(bytes)@, i) by {
            if i / 8 == byte_index {
                assert(i % 8 != k as int);
                let jj = (7 - (i % 8)) as u8;
                assert(((old_byte | (1u8 << shift)) >> jj) & 1 == (old_byte >> jj) & 1)
                    by (bit_vector)
                    requires
                        jj < 8,
                        shift < 8,
                        jj != shift,
                ;
            } else {
                assert(bytes@[i / 8] == old(bytes)@[i / 8]);
            }
        };
        assert(index as int / 8 == byte_index && index as int % 8 == k as int);
        assert((7 - (index as int % 8)) as u8 == shift);
    }
}

} // verus!
