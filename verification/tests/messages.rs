use swarm_core::messages::{drain_frames, parse, CodecError, Message, PeerWireMessage};

fn parse_then_serialise(raw: &Vec<u8>) -> Vec<u8> {
    let parsed = parse(&raw).unwrap().0;
    let parsed = parsed.expect("Error parsing message");
    parsed.serialise()
}

#[test]
fn parse_serialise_preserves_keep_alive() {
    let raw = vec![0, 0, 0, 0];
    let serialised = parse_then_serialise(&raw);
    assert_eq!(raw, serialised);
}

#[test]
fn parse_serialise_preserves_choke() {
    let raw = vec![0, 0, 0, 1, 0];
    let serialised = parse_then_serialise(&raw);

    assert_eq!(raw, serialised);
}

#[test]
fn parse_serialise_preserves_unchoke() {
    let raw = vec![0, 0, 0, 1, 1];
    let serialised = parse_then_serialise(&raw);

    assert_eq!(raw, serialised);
}

#[test]
fn parse_serialise_preserves_interested() {
    let raw = vec![0, 0, 0, 1, 2];
    let serialised = parse_then_serialise(&raw);

    assert_eq!(raw, serialised);
}

#[test]
fn parse_serialise_preserves_uninterested() {
    let raw = vec![0, 0, 0, 1, 3];
    let serialised = parse_then_serialise(&raw);

    assert_eq!(raw, serialised);
}

#[test]
fn parse_serialise_preserves_have() {
    let raw = vec![0, 0, 0, 5, 4, 1, 2, 3, 4];
    let serialised = parse_then_serialise(&raw);

    assert_eq!(raw, serialised);
}

#[test]
fn parse_serialise_preserves_bitfield() {
    let raw = vec![0, 0, 0, 6, 5, 3, 1, 4, 1, 5];
    let serialised = parse_then_serialise(&raw);

    assert_eq!(raw, serialised);
}

#[test]
fn parse_serialise_preserves_request() {
    let raw = vec![0, 0, 0, 13, 6, 1, 2, 3, 4, 9, 9, 9, 9, 2, 4, 6, 8];
    let serialised = parse_then_serialise(&raw);

    assert_eq!(raw, serialised);
}

#[test]
fn parse_serialise_preserves_piece() {
    let raw = vec![0, 0, 0, 14, 7, 4, 4, 4, 4, 2, 1, 7, 8, 20, 40, 60, 80, 100];
    let serialised = parse_then_serialise(&raw);

    assert_eq!(raw, serialised);
}

#[test]
fn parse_serialise_preserves_cancel() {
    let raw = vec![0, 0, 0, 13, 8, 2, 3, 5, 7, 9, 9, 9, 9, 1, 0, 1, 0];
    let serialised = parse_then_serialise(&raw);

    assert_eq!(raw, serialised);
}

#[test]
fn parse_decodes_have_fields() {
    let raw = vec![0, 0, 0, 5, 4, 0, 0, 1, 2];
    let (msg, rem) = parse(&raw).unwrap();
    match msg.unwrap() {
        Message::Have(h) => assert_eq!(h.piece_index, 258),
        _ => panic!("wrong variant"),
    }
    assert!(rem.is_empty());
}

#[test]
fn parse_decodes_request_fields() {
    let raw = vec![0, 0, 0, 13, 6, 0, 0, 0, 7, 0, 0, 64, 0, 0, 0, 64, 0];
    let (msg, _) = parse(&raw).unwrap();
    match msg.unwrap() {
        Message::Request(r) => {
            assert_eq!(r.index, 7);
            assert_eq!(r.begin, 16384);
            assert_eq!(r.length, 16384);
        }
        _ => panic!("wrong variant"),
    }
}

#[test]
fn parse_preserves_trailing_bytes() {
    let raw = vec![0, 0, 0, 1, 2, 9, 8, 7];
    let (msg, rem) = parse(&raw).unwrap();
    assert!(matches!(msg, Some(Message::Interested(_))));
    assert_eq!(rem, vec![9, 8, 7]);
}

#[test]
fn parse_incomplete_frame_is_not_an_error() {
    // a request frame announced but not fully arrived
    let raw = vec![0, 0, 0, 13, 6, 1, 2];
    let (msg, rem) = parse(&raw).unwrap();
    assert!(msg.is_none());
    assert_eq!(rem, raw);
}

#[test]
fn parse_short_prefix_is_not_an_error() {
    let raw = vec![0, 0];
    let (msg, rem) = parse(&raw).unwrap();
    assert!(msg.is_none());
    assert_eq!(rem, raw);
}

#[test]
fn parse_rejects_oversized_prefix() {
    // 200001 exceeds the frame cap
    let raw = vec![0, 3, 13, 65, 5];
    assert_eq!(parse(&raw).unwrap_err(), CodecError::MalformedFrame);
}

#[test]
fn parse_accepts_prefix_at_cap() {
    // 200000 exactly: a bitfield frame of 199999 payload bytes
    let mut raw = vec![0, 3, 13, 64, 5];
    raw.extend(std::iter::repeat(0xffu8).take(199999));
    let (msg, rem) = parse(&raw).unwrap();
    match msg.unwrap() {
        Message::Bitfield(b) => assert_eq!(b.bitfield.len(), 199999),
        _ => panic!("wrong variant"),
    }
    assert!(rem.is_empty());
}

#[test]
fn parse_rejects_unknown_id() {
    let raw = vec![0, 0, 0, 1, 42];
    assert_eq!(parse(&raw).unwrap_err(), CodecError::MalformedFrame);
}

#[test]
fn parse_rejects_wrong_length_for_choke() {
    let raw = vec![0, 0, 0, 2, 0, 0];
    assert_eq!(parse(&raw).unwrap_err(), CodecError::MalformedFrame);
}

#[test]
fn parse_rejects_short_piece() {
    // a piece frame needs at least index, begin and one block byte
    let raw = vec![0, 0, 0, 9, 7, 0, 0, 0, 0, 0, 0, 0, 0];
    assert_eq!(parse(&raw).unwrap_err(), CodecError::MalformedFrame);
}

#[test]
fn drain_frames_splits_consecutive_frames() {
    let mut raw = vec![0, 0, 0, 1, 2];
    raw.extend(vec![0, 0, 0, 5, 4, 0, 0, 0, 9]);
    raw.extend(vec![0, 0, 0, 13]);
    let (msgs, rem) = drain_frames(raw).unwrap();
    assert_eq!(msgs.len(), 2);
    assert!(matches!(msgs[0], Message::Interested(_)));
    match &msgs[1] {
        Message::Have(h) => assert_eq!(h.piece_index, 9),
        _ => panic!("wrong variant"),
    }
    assert_eq!(rem, vec![0, 0, 0, 13]);
}

#[test]
fn drain_frames_rejects_bad_frame_after_good_one() {
    let mut raw = vec![0, 0, 0, 1, 2];
    raw.extend(vec![0, 0, 0, 1, 42]);
    assert_eq!(drain_frames(raw).unwrap_err(), CodecError::MalformedFrame);
}

#[test]
fn message_names_and_ids() {
    let raw = vec![0, 0, 0, 1, 0];
    let (msg, _) = parse(&raw).unwrap();
    let msg = msg.unwrap();
    assert_eq!(msg.name(), "choke");
    assert_eq!(msg.id(), Some(0));
    assert_eq!(msg.len(), 1);
}
