use swarm_core::magnet::{
    compute_node_id, parse_info_hash, xor_distance_score, NodeGatherer,
};
use swarm_core::utils::PeerAddr;

#[test]
fn parse_info_hash_accepts_valid_link() {
    let link = "magnet:?xt=urn:btih:0123456789abcdef0123456789ABCDEF01234567&dn=name";
    let hash = parse_info_hash(link).unwrap();
    assert_eq!(hash.len(), 20);
    assert_eq!(
        hash,
        vec![
            0x01, 0x23, 0x45, 0x67, 0x89, 0xab, 0xcd, 0xef, 0x01, 0x23, 0x45, 0x67, 0x89, 0xab,
            0xcd, 0xef, 0x01, 0x23, 0x45, 0x67
        ]
    );
}

#[test]
fn parse_info_hash_takes_later_parameter() {
    let link = "magnet:?dn=name&xt=urn:btih:00000000000000000000000000000000000000ff";
    let hash = parse_info_hash(link).unwrap();
    assert_eq!(hash[19], 0xff);
    assert!(hash[..19].iter().all(|&b| b == 0));
}

#[test]
fn parse_info_hash_rejects_wrong_scheme() {
    assert!(parse_info_hash("http://example/a").is_none());
    assert!(parse_info_hash("magnet").is_none());
}

#[test]
fn parse_info_hash_rejects_wrong_hash_length() {
    let link = "magnet:?xt=urn:btih:0123456789abcdef";
    assert!(parse_info_hash(link).is_none());
}

#[test]
fn parse_info_hash_rejects_non_hex_digits() {
    let link = "magnet:?xt=urn:btih:0123456789abcdef0123456789ABCDEF0123456g";
    assert!(parse_info_hash(link).is_none());
}

#[test]
fn node_id_uses_real_checksum() {
    let ip = 0xc0a8_011e;
    let rand_byte = 0x2a;
    let tail = vec![7u8; 16];
    let id = compute_node_id(ip, rand_byte, &tail);
    assert_eq!(id.len(), 20);
    // the first three bytes are the checksum of the masked address
    let seed = (ip & 0x030f_3fff) | (((rand_byte & 0x7) as u32) << 29);
    let expect = crc32c::crc32c(&seed.to_be_bytes()).to_be_bytes();
    assert_eq!(&id[..3], &expect[..3]);
    assert_eq!(&id[3..19], &tail[..]);
    assert_eq!(id[19], rand_byte);
}

#[test]
fn xor_score_counts_leading_zero_bits() {
    // equal bytes score eight each; a difference in the top bit scores zero
    assert_eq!(xor_distance_score(&vec![0x12, 0x34], &vec![0x12, 0x34]), 16);
    assert_eq!(xor_distance_score(&vec![0x80], &vec![0x00]), 0);
    assert_eq!(xor_distance_score(&vec![0x40], &vec![0x00]), 1);
    assert_eq!(xor_distance_score(&vec![0x01], &vec![0x00]), 7);
    // lengths are compared over the shorter side
    assert_eq!(xor_distance_score(&vec![0x00, 0xff], &vec![0x00]), 8);
}

#[test]
fn gatherer_visits_and_dedups() {
    let a = PeerAddr { ip: 1, port: 1 };
    let b = PeerAddr { ip: 2, port: 2 };
    let c = PeerAddr { ip: 3, port: 3 };
    let mut g = NodeGatherer::new(vec![a, b], 3);

    // nodes are handed out newest-first and marked visited
    assert_eq!(g.next_node(), Some(b));
    assert_eq!(g.next_node(), Some(a));
    assert_eq!(g.next_node(), None);

    // an already-visited node is not queued again; a fresh one is
    let done = g.add_addresses(vec![c, c], vec![a, c]);
    assert!(!done);
    assert_eq!(g.peers, vec![c]);
    assert_eq!(g.unvisited, vec![c]);

    // reaching the target count reports completion
    let done = g.add_addresses(vec![a, b, c], vec![]);
    assert!(done);
    assert_eq!(g.peers, vec![c, a, b]);
}
