use swarm_core::metadata::{FileInfo, FilePathInfo, Metadata};

// total 17000 bytes, 16384-byte pieces, two pieces
fn md_terminal() -> Metadata {
    Metadata {
        announce: Some("udp://tracker.example:80".to_string()),
        announce_list: vec![vec!["udp://tracker.example:80".to_string()]],
        info: FileInfo {
            files: vec![FilePathInfo { length: 17000, path: vec!["a.bin".to_string()] }],
            name: "content".to_string(),
            piece_length: 16384,
            pieces: vec![0; 40],
            private: Some(0),
        },
        info_hash: vec![1; 20],
    }
}

#[test]
fn piece_and_block_counts() {
    let md = md_terminal();
    assert_eq!(md.num_pieces(), 2);
    assert_eq!(md.num_blocks(), 1);
    assert_eq!(md.total_length(), 17000);
}

#[test]
fn terminal_block_sizing() {
    let md = md_terminal();
    // block 0 of piece 0 is a full block; block 0 of piece 1 holds the
    // 616 remaining bytes
    assert_eq!(md.block_len(0, 0), 16384);
    assert_eq!(md.block_len(1, 0), 616);
}

#[test]
fn interior_blocks_are_full() {
    // 32768-byte pieces: two blocks per piece, total 50000 bytes
    let md = Metadata {
        announce: None,
        announce_list: vec![],
        info: FileInfo {
            files: vec![FilePathInfo { length: 50000, path: vec!["a.bin".to_string()] }],
            name: "content".to_string(),
            piece_length: 32768,
            pieces: vec![0; 40],
            private: None,
        },
        info_hash: vec![1; 20],
    };
    assert_eq!(md.num_pieces(), 2);
    assert_eq!(md.num_blocks(), 2);
    assert_eq!(md.block_len(0, 0), 16384);
    assert_eq!(md.block_len(0, 1), 16384);
    assert_eq!(md.block_len(1, 0), 16384);
    // terminal block of the terminal piece holds the remaining bytes:
    // 50000 - 32768 - 16384 = 848
    assert_eq!(md.block_len(1, 1), 848);
}
