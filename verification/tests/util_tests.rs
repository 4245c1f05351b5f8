use swarm_core::bitfield::{pack_bits, set_packed_bit, unpack_bits, Bitfield};
use swarm_core::ring_buffer::RingBuffer;
use swarm_core::utils::{addr_from_bytes, count_ones, u16_from_be, u32_from_be};

#[test]
fn big_endian_reads() {
    assert_eq!(u32_from_be(0x01, 0x02, 0x03, 0x04), 0x0102_0304);
    assert_eq!(u16_from_be(0xab, 0xcd), 0xabcd);
}

#[test]
fn addr_from_compact_bytes() {
    let a = addr_from_bytes(&vec![10, 0, 0, 1, 0x1a, 0xe1]).unwrap();
    assert_eq!(a.ip, 0x0a00_0001);
    assert_eq!(a.port, 6881);
    assert!(addr_from_bytes(&vec![1, 2, 3]).is_err());
}

#[test]
fn count_ones_counts() {
    assert_eq!(count_ones(&vec![]), 0);
    assert_eq!(count_ones(&vec![true, false, true, true]), 3);
}

#[test]
fn bitfield_get_set() {
    let mut bf = Bitfield::newt(5);
    assert_eq!(bf.len(), 5);
    assert!(!bf.get(3));
    bf.set(3, true);
    assert!(bf.get(3));
    assert!(!bf.get(2));
    bf.set(3, false);
    assert!(!bf.get(3));
}

#[test]
fn bitfield_union() {
    let mut a = Bitfield::from_bits(vec![true, false, false]);
    let b = Bitfield::from_bits(vec![false, true, false]);
    a.bitor_assign(b);
    assert!(a.get(0) && a.get(1) && !a.get(2));

    let c = Bitfield::from_bits(vec![true, false]);
    let d = Bitfield::from_bits(vec![false, false, true]);
    let e = c.bitor(d);
    // the union truncates to the shorter operand
    assert_eq!(e.len(), 2);
    assert!(e.get(0) && !e.get(1));
}

#[test]
fn pack_unpack_roundtrip() {
    let bits = vec![true, false, true, true, false, false, true, false, true, true];
    let packed = pack_bits(&bits);
    // most-significant bit first, padded with zeroes
    assert_eq!(packed, vec![0b1011_0010, 0b1100_0000]);
    let back = unpack_bits(&packed, bits.len());
    assert_eq!(back, bits);
}

#[test]
fn unpack_truncates_to_available_bits() {
    let back = unpack_bits(&vec![0b1000_0000], 12);
    assert_eq!(back.len(), 8);
    assert!(back[0]);
}

#[test]
fn set_packed_bit_leaves_others() {
    let mut bytes = vec![0u8; 2];
    set_packed_bit(&mut bytes, 9);
    assert_eq!(bytes, vec![0, 0b0100_0000]);
    set_packed_bit(&mut bytes, 0);
    assert_eq!(bytes, vec![0b1000_0000, 0b0100_0000]);
}

#[test]
fn ring_buffer_keeps_newest() {
    let mut rb = RingBuffer::new(3);
    rb.push(1);
    rb.push(2);
    rb.push(3);
    rb.push(4);
    // newest first, capacity three: 4, 3, 2
    assert_eq!(rb.delta_total(), 2);
}

#[test]
fn ring_buffer_delta_is_newest_minus_oldest() {
    let mut rb = RingBuffer::new(15);
    rb.push(10);
    rb.push(13);
    rb.push(20);
    assert_eq!(rb.delta_total(), 10);
    let rb2 = RingBuffer::new(4);
    assert_eq!(rb2.delta_total(), 0);
}
