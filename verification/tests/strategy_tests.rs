use swarm_core::strategy::{AdminMessage, Reply, Strategy, StrategyError};
use swarm_core::utils::PeerAddr;

fn addr(n: u16) -> PeerAddr {
    PeerAddr { ip: 0x0a000000 + n as u32, port: 6881 }
}

#[test]
fn rarest_first_tiebreak() {
    // availability: A=111, B=110, C=100; multiplicities [3,2,1]
    let mut s = Strategy::new(3);
    s.update_bitfield(addr(1), vec![true, true, true]).unwrap();
    s.update_bitfield(addr(2), vec![true, true, false]).unwrap();
    s.update_bitfield(addr(3), vec![true, false, false]).unwrap();

    assert_eq!(s.get_piece_index(addr(1)), Some(2));
    assert_eq!(s.get_piece_index(addr(2)), Some(1));
    assert_eq!(s.get_piece_index(addr(3)), Some(0));
}

#[test]
fn no_piece_when_nothing_qualifies() {
    let mut s = Strategy::new(2);
    s.update_bitfield(addr(1), vec![false, false]).unwrap();
    assert_eq!(s.get_piece_index(addr(1)), None);
}

#[test]
fn selected_piece_not_reassigned_outside_endgame() {
    let mut s = Strategy::new(1);
    s.update_bitfield(addr(1), vec![true]).unwrap();
    s.update_bitfield(addr(2), vec![true]).unwrap();
    assert_eq!(s.get_piece_index(addr(1)), Some(0));
    // the piece is in progress, so the second peer gets nothing
    assert_eq!(s.get_piece_index(addr(2)), None);
}

#[test]
fn completed_piece_never_reassigned() {
    let mut s = Strategy::new(2);
    s.update_bitfield(addr(1), vec![true, true]).unwrap();
    assert_eq!(s.get_piece_index(addr(1)), Some(0));
    s.piece_completed(0);
    // piece 0 is complete: only piece 1 remains
    assert_eq!(s.get_piece_index(addr(1)), Some(1));
    assert_eq!(s.get_piece_index(addr(1)), None);
}

#[test]
fn completed_piece_leaves_in_progress() {
    let mut s = Strategy::new(2);
    s.update_bitfield(addr(1), vec![true, true]).unwrap();
    assert_eq!(s.get_piece_index(addr(1)), Some(0));
    assert!(s.snapshot_in_progress()[0]);
    s.piece_completed(0);
    assert!(!s.snapshot_in_progress()[0]);
    assert!(s.snapshot_downloaded()[0]);
}

#[test]
fn malformed_bitfield_rejected() {
    let mut s = Strategy::new(3);
    assert_eq!(
        s.update_bitfield(addr(1), vec![true, true]).unwrap_err(),
        StrategyError::MalformedBitfield
    );
}

#[test]
fn endgame_engagement() {
    // piece count 4: complete 0 and 1, then put 2 and 3 in progress
    let mut s = Strategy::new(4);
    s.update_bitfield(addr(1), vec![true, true, true, true]).unwrap();
    assert_eq!(s.get_piece_index(addr(1)), Some(0));
    s.piece_completed(0);
    assert_eq!(s.get_piece_index(addr(1)), Some(1));
    s.piece_completed(1);
    assert_eq!(s.get_piece_index(addr(1)), Some(2));
    assert_eq!(s.get_piece_index(addr(1)), Some(3));
    assert!(!s.is_endgame());
    // completed=1100, in_progress=0011; completing piece 2 makes every piece
    // in progress or complete, which engages endgame
    s.piece_completed(2);
    assert!(s.is_endgame());
    assert_eq!(s.snapshot_downloaded(), vec![true, true, true, false]);
    assert_eq!(s.snapshot_in_progress(), vec![false, false, false, true]);
}

#[test]
fn endgame_never_disengages() {
    let mut s = Strategy::new(1);
    s.update_bitfield(addr(1), vec![true]).unwrap();
    assert_eq!(s.get_piece_index(addr(1)), Some(0));
    s.piece_completed(0);
    assert!(s.is_endgame());
    // further traffic of every kind leaves endgame engaged
    s.update_bitfield(addr(2), vec![true]).unwrap();
    assert!(s.is_endgame());
    s.piece_completed(0);
    assert!(s.is_endgame());
    s.peer_disconnect(addr(2));
    assert!(s.is_endgame());
}

#[test]
fn endgame_allows_duplicate_assignment() {
    let mut s = Strategy::new(2);
    s.update_bitfield(addr(1), vec![true, true]).unwrap();
    s.update_bitfield(addr(2), vec![true, true]).unwrap();
    assert_eq!(s.get_piece_index(addr(1)), Some(0));
    assert_eq!(s.get_piece_index(addr(2)), Some(1));
    s.piece_completed(0);
    assert!(s.is_endgame());
    // in endgame the in-progress piece 1 may be fetched again
    assert_eq!(s.get_piece_index(addr(1)), Some(1));
}

#[test]
fn handle_message_bitfield_and_request() {
    let mut s = Strategy::new(2);
    let r = s.handle_message(AdminMessage::PeerBitfield {
        addr: addr(1),
        peer_bitfield: vec![true, false],
    });
    assert_eq!(r, Reply::Ack);
    let r = s.handle_message(AdminMessage::PieceIndexRequest { addr: addr(1) });
    assert_eq!(r, Reply::Piece(0));
    let r = s.handle_message(AdminMessage::PieceIndexRequest { addr: addr(1) });
    assert_eq!(r, Reply::NoPiece);
}

#[test]
fn handle_message_rejects_unknown_peer() {
    let mut s = Strategy::new(2);
    let r = s.handle_message(AdminMessage::PieceIndexRequest { addr: addr(9) });
    assert_eq!(r, Reply::Rejected);
}

#[test]
fn handle_message_rejects_wrong_length_bitfield() {
    let mut s = Strategy::new(2);
    let r = s.handle_message(AdminMessage::PeerBitfield {
        addr: addr(1),
        peer_bitfield: vec![true],
    });
    assert_eq!(r, Reply::Rejected);
}

#[test]
fn handle_message_rejects_out_of_range_piece() {
    let mut s = Strategy::new(2);
    let r = s.handle_message(AdminMessage::PieceDownload { index: 5 });
    assert_eq!(r, Reply::Rejected);
}

#[test]
fn handle_message_disconnect_forgets_peer() {
    let mut s = Strategy::new(1);
    s.update_bitfield(addr(1), vec![true]).unwrap();
    let r = s.handle_message(AdminMessage::PeerDisconnect { addr: addr(1) });
    assert_eq!(r, Reply::Ack);
    let r = s.handle_message(AdminMessage::PieceIndexRequest { addr: addr(1) });
    assert_eq!(r, Reply::Rejected);
}

#[test]
fn have_message_installs_and_unions() {
    let mut s = Strategy::new(3);
    // a have from an unknown peer installs a one-piece bitfield
    assert_eq!(s.handle_message(AdminMessage::PeerHave { addr: addr(1), index: 2 }), Reply::Ack);
    assert_eq!(s.get_piece_index(addr(1)), Some(2));
    // a later have unions in
    assert_eq!(s.handle_message(AdminMessage::PeerHave { addr: addr(1), index: 0 }), Reply::Ack);
    assert_eq!(s.get_piece_index(addr(1)), Some(0));
    // an out-of-range index is rejected
    assert_eq!(
        s.handle_message(AdminMessage::PeerHave { addr: addr(1), index: 9 }),
        Reply::Rejected
    );
}

#[test]
fn have_via_one_hot_union_increments_multiplicity() {
    // a have announcement is a one-hot bitfield union
    let mut s = Strategy::new(3);
    s.update_bitfield(addr(1), vec![true, false, false]).unwrap();
    s.update_bitfield(addr(1), vec![false, false, true]).unwrap();
    // the peer now has pieces 0 and 2; the rarest qualifying piece is 0 or 2
    // with equal multiplicity, so the lowest index wins
    assert_eq!(s.get_piece_index(addr(1)), Some(0));
    assert_eq!(s.get_piece_index(addr(1)), Some(2));
}
