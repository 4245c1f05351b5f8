use swarm_core::metadata::{FileInfo, FilePathInfo, Metadata};
use swarm_core::tracker::{
    check_connect_response, connect_msg, announce_msg, ipv4_string, u16_dec, TrackerInfo,
};

fn md_small() -> Metadata {
    Metadata {
        announce: None,
        announce_list: vec![],
        info: FileInfo {
            files: vec![FilePathInfo { length: 17000, path: vec!["a.bin".to_string()] }],
            name: "content".to_string(),
            piece_length: 16384,
            pieces: vec![0; 40],
            private: None,
        },
        info_hash: (0..20u8).collect(),
    }
}

#[test]
fn connect_msg_layout() {
    let msg = connect_msg(0xdead_beef);
    assert_eq!(msg.len(), 16);
    // magic protocol id, action 0, transaction id
    assert_eq!(&msg[0..8], &[0, 0, 0x04, 0x17, 0x27, 0x10, 0x19, 0x80]);
    assert_eq!(&msg[8..12], &[0, 0, 0, 0]);
    assert_eq!(&msg[12..16], &[0xde, 0xad, 0xbe, 0xef]);
}

#[test]
fn connect_response_accepted() {
    let mut buf = vec![0u8; 16];
    buf[4..8].copy_from_slice(&0xdead_beefu32.to_be_bytes());
    buf[8..16].copy_from_slice(&0x0102_0304_0506_0708u64.to_be_bytes());
    assert_eq!(check_connect_response(&buf, 0xdead_beef).unwrap(), 0x0102_0304_0506_0708);
}

#[test]
fn connect_response_rejects_wrong_transaction() {
    let mut buf = vec![0u8; 16];
    buf[4..8].copy_from_slice(&1u32.to_be_bytes());
    assert!(check_connect_response(&buf, 2).is_err());
}

#[test]
fn connect_response_rejects_wrong_action() {
    let mut buf = vec![0u8; 16];
    buf[0] = 1;
    assert!(check_connect_response(&buf, 0).is_err());
}

#[test]
fn announce_msg_layout() {
    let md = md_small();
    let msg = announce_msg(&md, 0x1111_2222_3333_4444, 0x5566_7788, None);
    assert_eq!(msg.len(), 98);
    assert_eq!(&msg[0..8], &0x1111_2222_3333_4444u64.to_be_bytes());
    // action 1 = announce
    assert_eq!(&msg[8..12], &[0, 0, 0, 1]);
    assert_eq!(&msg[12..16], &0x5566_7788u32.to_be_bytes());
    assert_eq!(&msg[16..36], &md.info_hash[..]);
    assert_eq!(&msg[36..44], b"-TO0000-");
    // left = piece_length * hash-list length
    assert_eq!(&msg[64..72], &(16384u64 * 40).to_be_bytes());
    // num_want -1, port 3000
    assert_eq!(&msg[92..96], &[0xff, 0xff, 0xff, 0xff]);
    assert_eq!(&msg[96..98], &3000u16.to_be_bytes());
}

#[test]
fn from_raw_parses_compact_peers() {
    let mut raw = vec![0u8; 20];
    raw[8..12].copy_from_slice(&1800u32.to_be_bytes());
    // two compact endpoints
    raw.extend(&[10, 0, 0, 1, 0x1a, 0xe1]);
    raw.extend(&[192, 168, 1, 30, 0x0b, 0xb8]);
    let info = TrackerInfo::from_raw(raw).unwrap();
    assert_eq!(info.interval, 1800);
    assert!(info.tracker_id.is_none());
    assert_eq!(info.peers.len(), 2);
    assert_eq!(info.peers[0].ip, "10.0.0.1");
    assert_eq!(info.peers[0].port, 6881);
    assert_eq!(info.peers[1].ip, "192.168.1.30");
    assert_eq!(info.peers[1].port, 3000);
    assert_eq!(info.peers[0].to_string(), "10.0.0.1:6881");
}

#[test]
fn from_raw_rejects_short_answer() {
    assert!(TrackerInfo::from_raw(vec![0u8; 19]).is_err());
}

#[test]
fn decimal_rendering() {
    assert_eq!(u16_dec(0), "0");
    assert_eq!(u16_dec(7), "7");
    assert_eq!(u16_dec(65535), "65535");
    assert_eq!(ipv4_string(0x7f00_0001), "127.0.0.1");
    assert_eq!(ipv4_string(0xffff_ffff), "255.255.255.255");
}
