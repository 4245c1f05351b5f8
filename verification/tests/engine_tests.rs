use sha1::{Digest, Sha1};
use swarm_core::engine::{
    client_peer_id, handshake_msg, piece_matches_hash, split_handshake_reply, Action, PeerHandler,
};
use swarm_core::messages::{Bitfield, Cancel, Choke, Have, Message, Piece, Unchoke};
use swarm_core::metadata::{FileInfo, FilePathInfo, Metadata};

// one file of 32768 bytes over two 16384-byte pieces, with real hashes
fn md_two_pieces(piece0: &[u8], piece1: &[u8]) -> Metadata {
    let mut pieces = Sha1::digest(piece0).to_vec();
    pieces.extend(Sha1::digest(piece1).to_vec());
    Metadata {
        announce: None,
        announce_list: vec![],
        info: FileInfo {
            files: vec![FilePathInfo { length: 32768, path: vec!["a.bin".to_string()] }],
            name: "content".to_string(),
            piece_length: 16384,
            pieces,
            private: None,
        },
        info_hash: vec![9; 20],
    }
}

#[test]
fn fresh_engine_state() {
    let d0 = vec![1u8; 16384];
    let d1 = vec![2u8; 16384];
    let e = PeerHandler::new(md_two_pieces(&d0, &d1));
    assert!(e.peer_state.client_choked && e.peer_state.peer_choked);
    assert!(!e.peer_state.client_interested && !e.peer_state.peer_interested);
    assert!(e.piece_index.is_none());
    assert_eq!(e.block_index, 0);
}

#[test]
fn bitfield_frame_asks_for_assignment() {
    let d0 = vec![1u8; 16384];
    let d1 = vec![2u8; 16384];
    let mut e = PeerHandler::new(md_two_pieces(&d0, &d1));
    let acts = e.on_frame(Message::Bitfield(Bitfield { bitfield: vec![0b1100_0000] }));
    assert_eq!(acts.len(), 2);
    match &acts[0] {
        Action::NotifyBitfield { bits } => assert_eq!(bits, &vec![true, true]),
        _ => panic!("expected a bitfield notification"),
    }
    assert!(matches!(acts[1], Action::AskAssignment));

    // choked: the assignment makes the engine interested but it cannot
    // request yet
    let acts = e.on_assignment(Some(0));
    assert_eq!(acts.len(), 1);
    assert!(matches!(acts[0], Action::SendInterested));
    assert!(e.peer_state.client_interested);
    assert_eq!(e.piece_index, Some(0));
}

#[test]
fn short_bitfield_disconnects() {
    let d0 = vec![1u8; 16384];
    let d1 = vec![2u8; 16384];
    let mut e = PeerHandler::new(md_two_pieces(&d0, &d1));
    let acts = e.on_frame(Message::Bitfield(Bitfield { bitfield: vec![] }));
    assert_eq!(acts.len(), 1);
    assert!(matches!(acts[0], Action::Disconnect));
}

#[test]
fn unchoke_requests_current_block() {
    let d0 = vec![1u8; 16384];
    let d1 = vec![2u8; 16384];
    let mut e = PeerHandler::new(md_two_pieces(&d0, &d1));
    e.on_frame(Message::Bitfield(Bitfield { bitfield: vec![0b1100_0000] }));
    e.on_assignment(Some(1));
    let acts = e.on_frame(Message::Unchoke(Unchoke {}));
    assert_eq!(acts.len(), 1);
    match acts[0] {
        Action::SendRequest { index, begin, length } => {
            assert_eq!(index, 1);
            assert_eq!(begin, 0);
            assert_eq!(length, 16384);
        }
        _ => panic!("expected a request"),
    }
    assert!(!e.peer_state.client_choked);
}

#[test]
fn full_piece_flow_with_verification() {
    let d0: Vec<u8> = (0..16384u32).map(|i| (i % 255) as u8).collect();
    let d1 = vec![2u8; 16384];
    let mut e = PeerHandler::new(md_two_pieces(&d0, &d1));
    e.on_frame(Message::Bitfield(Bitfield { bitfield: vec![0b1100_0000] }));
    e.on_assignment(Some(0));
    e.on_frame(Message::Unchoke(Unchoke {}));

    // the single block of piece 0 arrives with the right bytes
    let acts = e.on_frame(Message::Piece(Piece { index: 0, begin: 0, block: d0.clone() }));
    assert_eq!(acts.len(), 3);
    match &acts[0] {
        Action::WritePiece { index, data } => {
            assert_eq!(*index, 0);
            assert_eq!(data, &d0);
        }
        _ => panic!("expected a piece write"),
    }
    match acts[1] {
        Action::NotifyCompleted { index } => assert_eq!(index, 0),
        _ => panic!("expected a completion notice"),
    }
    assert!(matches!(acts[2], Action::AskAssignment));

    // the next assignment is requested immediately, unchoked
    let acts = e.on_assignment(Some(1));
    assert_eq!(acts.len(), 1);
    match acts[0] {
        Action::SendRequest { index, begin, length } => {
            assert_eq!(index, 1);
            assert_eq!(begin, 0);
            assert_eq!(length, 16384);
        }
        _ => panic!("expected a request"),
    }
}

#[test]
fn corrupt_piece_is_discarded_and_refetched() {
    let d0 = vec![1u8; 16384];
    let d1 = vec![2u8; 16384];
    let mut e = PeerHandler::new(md_two_pieces(&d0, &d1));
    e.on_frame(Message::Bitfield(Bitfield { bitfield: vec![0b1100_0000] }));
    e.on_assignment(Some(0));
    e.on_frame(Message::Unchoke(Unchoke {}));

    // wrong bytes: the hash does not match, so the engine re-requests the
    // piece from block zero instead of writing it
    let bad = vec![3u8; 16384];
    let acts = e.on_frame(Message::Piece(Piece { index: 0, begin: 0, block: bad }));
    assert_eq!(acts.len(), 1);
    match acts[0] {
        Action::SendRequest { index, begin, length } => {
            assert_eq!(index, 0);
            assert_eq!(begin, 0);
            assert_eq!(length, 16384);
        }
        _ => panic!("expected a request"),
    }
    assert_eq!(e.piece_index, Some(0));
    assert_eq!(e.block_index, 0);
}

#[test]
fn mismatched_piece_frame_is_ignored() {
    let d0 = vec![1u8; 16384];
    let d1 = vec![2u8; 16384];
    let mut e = PeerHandler::new(md_two_pieces(&d0, &d1));
    e.on_frame(Message::Bitfield(Bitfield { bitfield: vec![0b1100_0000] }));
    e.on_assignment(Some(0));
    // wrong piece index: no action, no state change
    let acts = e.on_frame(Message::Piece(Piece { index: 1, begin: 0, block: vec![0; 16384] }));
    assert!(acts.is_empty());
    assert_eq!(e.block_index, 0);
}

#[test]
fn have_without_assignment_asks() {
    let d0 = vec![1u8; 16384];
    let d1 = vec![2u8; 16384];
    let mut e = PeerHandler::new(md_two_pieces(&d0, &d1));
    let acts = e.on_frame(Message::Have(Have { piece_index: 1 }));
    assert_eq!(acts.len(), 2);
    match acts[0] {
        Action::NotifyHave { index } => assert_eq!(index, 1),
        _ => panic!("expected a have notification"),
    }
    assert!(matches!(acts[1], Action::AskAssignment));
    let acts = e.on_assignment(Some(1));
    assert!(acts.is_empty());
    assert_eq!(e.piece_index, Some(1));
}

#[test]
fn out_of_range_have_disconnects() {
    let d0 = vec![1u8; 16384];
    let d1 = vec![2u8; 16384];
    let mut e = PeerHandler::new(md_two_pieces(&d0, &d1));
    let acts = e.on_frame(Message::Have(Have { piece_index: 7 }));
    assert_eq!(acts.len(), 1);
    assert!(matches!(acts[0], Action::Disconnect));
}

#[test]
fn cancel_exits_and_keep_alive_is_quiet() {
    let d0 = vec![1u8; 16384];
    let d1 = vec![2u8; 16384];
    let mut e = PeerHandler::new(md_two_pieces(&d0, &d1));
    let acts = e.on_frame(Message::KeepAlive(swarm_core::messages::KeepAlive {}));
    assert!(acts.is_empty());
    let acts = e.on_frame(Message::Choke(Choke {}));
    assert!(acts.is_empty());
    assert!(e.peer_state.client_choked);
    let acts = e.on_frame(Message::Cancel(Cancel { index: 0, begin: 0, length: 0 }));
    assert_eq!(acts.len(), 1);
    assert!(matches!(acts[0], Action::Exit));
}

#[test]
fn piece_hash_check_uses_real_digests() {
    let d0 = vec![5u8; 16384];
    let d1 = vec![6u8; 16384];
    let md = md_two_pieces(&d0, &d1);
    assert!(piece_matches_hash(&md, 0, &d0));
    assert!(piece_matches_hash(&md, 1, &d1));
    assert!(!piece_matches_hash(&md, 0, &d1));
    assert!(!piece_matches_hash(&md, 1, &d0));
}

#[test]
fn handshake_layout() {
    let info_hash = vec![0xabu8; 20];
    let peer_id = client_peer_id();
    assert_eq!(&peer_id[..8], b"-TO0000-");
    let hs = handshake_msg(&info_hash, &peer_id);
    assert_eq!(hs.len(), 68);
    assert_eq!(hs[0], 19);
    assert_eq!(&hs[1..20], b"BitTorrent protocol");
    assert_eq!(&hs[20..28], &[0u8; 8]);
    assert_eq!(&hs[28..48], &info_hash[..]);
    assert_eq!(&hs[48..68], &peer_id[..]);
}

#[test]
fn handshake_reply_split() {
    let mut buf = vec![0u8; 1024];
    buf[68] = 42;
    buf[69] = 43;
    let rem = split_handshake_reply(&buf, 70).unwrap();
    assert_eq!(rem, vec![42, 43]);
    assert!(split_handshake_reply(&buf, 0).is_err());
    assert!(split_handshake_reply(&buf, 67).is_err());
}
