use swarm_engine::bitfield::Bitfield;
use swarm_engine::coordinator::{plan_startup, TransferError};
use swarm_engine::entities::{InternalEvent, P2PError, Peer, TorrentLayout, ViolationReason};
use swarm_engine::fanout::FanOut;
use swarm_engine::file_provider::{FileProvider, MemoryFileProvider};
use swarm_engine::peer_conn::{BlockOutcome, ConnState, PeerConnection};
use swarm_engine::piece_picker::PiecePicker;
use swarm_engine::wire::{parse_message, Message};

fn layout2() -> TorrentLayout {
    TorrentLayout { pieces: 2, piece_length: 16, total_length: 32, block_size: 16 }
}

#[test]
fn startup_with_zero_peers_yields_an_empty_connection_set() {
    let layout = layout2();
    let plan = plan_startup(&layout, Ok(vec![])).unwrap();
    assert!(plan.connections.is_empty());
    assert_eq!(plan.choker_seed_peers, 0);
    assert_eq!(plan.local_bitfield.len(), 2);
    assert!(!plan.local_bitfield.get(0));
    assert!(!plan.local_bitfield.get(1));

    // the fan-out loop still runs, with only choker and collector as targets
    let mut fanout = FanOut::new();
    let events = vec![InternalEvent::PieceCompleted(0), InternalEvent::PieceCompleted(1)];
    fanout.broadcast_all(&events);
    assert_eq!(fanout.choker_received(), &events);
    assert_eq!(fanout.collector_received(), &events);
}

#[test]
fn startup_assigns_stable_transfer_indices() {
    let layout = layout2();
    let peers = vec![
        Peer { ip: 1, port: 10, id: 100 },
        Peer { ip: 2, port: 20, id: 200 },
        Peer { ip: 3, port: 30, id: 300 },
    ];
    let plan = plan_startup(&layout, Ok(peers.clone())).unwrap();
    assert_eq!(plan.connections.len(), 3);
    for (i, (idx, peer)) in plan.connections.iter().enumerate() {
        assert_eq!(*idx, i);
        assert_eq!(*peer, peers[i]);
    }
    assert_eq!(plan.choker_seed_peers, 3);
}

#[test]
fn startup_fails_fatally_when_the_tracker_call_fails() {
    let layout = layout2();
    let r = plan_startup(&layout, Err(String::from("announce refused")));
    match r {
        Err(TransferError::TrackerCallFailed(msg)) => assert_eq!(msg, "announce refused"),
        _ => panic!("expected a tracker failure"),
    }
}

#[test]
fn fanout_delivers_every_event_to_every_target_in_order() {
    let mut fanout = FanOut::new();
    let a = fanout.register_peer();
    let b = fanout.register_peer();
    assert_eq!((a, b), (0, 1));
    let events = vec![
        InternalEvent::PeerConnected(0),
        InternalEvent::BlockReceived(0, 1, 0),
        InternalEvent::PieceCompleted(1),
    ];
    fanout.broadcast_all(&events);
    assert_eq!(fanout.choker_received(), &events);
    assert_eq!(fanout.collector_received(), &events);
    assert_eq!(fanout.peer_received(0), &events);
    assert_eq!(fanout.peer_received(1), &events);

    // a deregistered peer keeps its log but receives nothing further
    fanout.deregister_peer(0);
    fanout.broadcast(InternalEvent::PeerDisconnected(0, P2PError::Timeout));
    assert_eq!(fanout.peer_received(0).len(), 3);
    assert_eq!(fanout.peer_received(1).len(), 4);
    assert_eq!(fanout.choker_received().len(), 4);
}

#[test]
fn protocol_violation_closes_only_the_offending_connection() {
    let layout = layout2();
    let mut conn0 = PeerConnection::new(0, layout, Bitfield::init(2));
    let mut conn1 = PeerConnection::new(1, layout, Bitfield::init(2));
    for conn in [&mut conn0, &mut conn1] {
        conn.on_connect(true);
        conn.on_handshake(true);
        assert_eq!(conn.state, ConnState::Established);
    }

    // a frame with an unknown identifier arrives mid-stream on connection 0
    let bad_frame = vec![0x63u8, 1, 2, 3];
    let reason = match parse_message(&bad_frame) {
        Err(r) => r,
        Ok(_) => panic!("the frame must be refused"),
    };
    assert_eq!(reason, ViolationReason::UnknownMessageId);
    conn0.on_malformed(reason);
    assert_eq!(conn0.state, ConnState::Closing);
    conn0.on_drained();
    assert_eq!(conn0.state, ConnState::Closed);

    // its exit reaches choker and collector as an ordinary disconnect event
    let ev = conn0.close_event().unwrap();
    assert_eq!(ev, InternalEvent::PeerDisconnected(0, P2PError::ProtocolViolation(reason)));
    let mut fanout = FanOut::new();
    fanout.register_peer();
    fanout.register_peer();
    fanout.deregister_peer(0);
    fanout.broadcast(ev);
    assert_eq!(fanout.choker_received(), &vec![ev]);
    assert_eq!(fanout.collector_received(), &vec![ev]);

    // the other connection is unaffected
    assert_eq!(conn1.state, ConnState::Established);
    assert!(conn1.error.is_none());
}

#[test]
fn endgame_issues_duplicates_and_the_first_completion_cancels_the_other() {
    // all pieces held except the last one block; two peers have it
    let layout = layout2();
    let mut local = Bitfield::init(2);
    local.set_piece(0);

    let mut picker = PiecePicker::new(layout, 2);
    picker.record_have(1);
    picker.record_have(1);
    assert!(picker.is_endgame(&local));

    let mut conn_a = PeerConnection::new(0, layout, local.clone());
    let mut conn_b = PeerConnection::new(1, layout, local.clone());
    for conn in [&mut conn_a, &mut conn_b] {
        conn.on_connect(true);
        conn.on_handshake(true);
        conn.on_have_msg(1);
        conn.on_choke_msg(false);
    }

    // both connections request the same final block
    let req_a = conn_a.pick_request(&picker).unwrap();
    let req_b = conn_b.pick_request(&picker).unwrap();
    assert_eq!((req_a.piece, req_a.offset), (1, 0));
    assert_eq!((req_b.piece, req_b.offset), (1, 0));

    // peer A delivers first; the block is stored and completes the piece
    let mut storage = MemoryFileProvider::new_zeroed(32);
    let data = vec![7u8; 16];
    let outcome = conn_a.on_piece_msg(&mut storage, 1, 0, data.clone(), true);
    assert_eq!(outcome, BlockOutcome::Completed);
    assert!(conn_a.local.get(1));
    assert_eq!(storage.read(16, 16).unwrap(), data);

    // the completion is fanned out; B cancels its duplicate request
    let cancel = conn_b.on_peer_event(InternalEvent::BlockReceived(0, 1, 0));
    assert_eq!(cancel, Some((1, 0)));
    assert!(!conn_b.in_flight.contains(1, 0));
    let cancel2 = conn_b.on_peer_event(InternalEvent::PieceCompleted(1));
    assert_eq!(cancel2, None);
    assert!(conn_b.local.get(1));
}

#[test]
fn a_received_block_is_not_requested_again() {
    let layout = TorrentLayout { pieces: 1, piece_length: 16, total_length: 16, block_size: 8 };
    let mut picker = PiecePicker::new(layout, 0);
    picker.record_have(0);
    let mut conn = PeerConnection::new(0, layout, Bitfield::init(1));
    conn.on_connect(true);
    conn.on_handshake(true);
    conn.on_have_msg(0);
    conn.on_choke_msg(false);
    let mut storage = MemoryFileProvider::new_zeroed(16);
    // the piece's first block arrives
    let outcome = conn.on_piece_msg(&mut storage, 0, 0, vec![1u8; 8], true);
    assert_eq!(outcome, BlockOutcome::Stored);
    // the next request skips the received block and asks for the other one
    let req = conn.pick_request(&picker).unwrap();
    assert_eq!((req.piece, req.offset, req.length), (0, 8, 8));
}

#[test]
fn a_piece_failing_its_integrity_check_is_discarded_and_refetched() {
    let layout = TorrentLayout { pieces: 1, piece_length: 16, total_length: 16, block_size: 8 };
    let mut picker = PiecePicker::new(layout, 0);
    picker.record_have(0);
    let mut conn = PeerConnection::new(0, layout, Bitfield::init(1));
    conn.on_connect(true);
    conn.on_handshake(true);
    conn.on_have_msg(0);
    conn.on_choke_msg(false);
    let mut storage = MemoryFileProvider::new_zeroed(16);
    let stored = conn.on_piece_msg(&mut storage, 0, 0, vec![1u8; 8], true);
    assert_eq!(stored, BlockOutcome::Stored);
    // the completing block arrives, but the assembled piece fails its check
    let bad = conn.on_piece_msg(&mut storage, 0, 8, vec![2u8; 8], false);
    assert_eq!(bad, BlockOutcome::Discarded);
    assert!(!conn.local.get(0));
    assert_eq!(conn.state, ConnState::Established);
    // the whole piece is fetched again from its first block
    let retry = conn.pick_request(&picker).unwrap();
    assert_eq!((retry.piece, retry.offset), (0, 0));
    assert_eq!(conn.on_piece_msg(&mut storage, 0, 0, vec![3u8; 8], true), BlockOutcome::Stored);
    let retry2 = conn.pick_request(&picker).unwrap();
    assert_eq!((retry2.piece, retry2.offset), (0, 8));
    let done = conn.on_piece_msg(&mut storage, 0, 8, vec![4u8; 8], true);
    assert_eq!(done, BlockOutcome::Completed);
    assert!(conn.local.get(0));
    assert_eq!(storage.read(0, 8).unwrap(), vec![3u8; 8]);
}

#[test]
fn wire_grammar_round_trips_the_defined_messages() {
    assert_eq!(parse_message(&vec![]).unwrap(), Message::KeepAlive);
    assert_eq!(parse_message(&vec![0]).unwrap(), Message::Choke);
    assert_eq!(parse_message(&vec![1]).unwrap(), Message::Unchoke);
    assert_eq!(parse_message(&vec![2]).unwrap(), Message::Interested);
    assert_eq!(parse_message(&vec![3]).unwrap(), Message::NotInterested);
    assert_eq!(parse_message(&vec![4, 0, 0, 1, 2]).unwrap(), Message::Have { piece: 258 });
    assert_eq!(
        parse_message(&vec![5, 0xa0, 0x01]).unwrap(),
        Message::Bitfield { bytes: vec![0xa0, 0x01] }
    );
    assert_eq!(
        parse_message(&vec![6, 0, 0, 0, 1, 0, 0, 0, 16, 0, 0, 0, 8]).unwrap(),
        Message::Request { piece: 1, offset: 16, length: 8 }
    );
    assert_eq!(
        parse_message(&vec![7, 0, 0, 0, 1, 0, 0, 0, 0, 9, 9]).unwrap(),
        Message::Piece { piece: 1, offset: 0, data: vec![9, 9] }
    );
    assert_eq!(
        parse_message(&vec![8, 0, 0, 0, 1, 0, 0, 0, 16, 0, 0, 0, 8]).unwrap(),
        Message::Cancel { piece: 1, offset: 16, length: 8 }
    );
}

#[test]
fn encode_then_parse_round_trips() {
    let msgs = vec![
        Message::KeepAlive,
        Message::Choke,
        Message::Unchoke,
        Message::Interested,
        Message::NotInterested,
        Message::Have { piece: 0 },
        Message::Have { piece: u32::MAX },
        Message::Bitfield { bytes: vec![] },
        Message::Bitfield { bytes: vec![0xa0, 0x01] },
        Message::Request { piece: 1, offset: 16384, length: 16384 },
        Message::Piece { piece: 1, offset: 0, data: vec![1, 2, 3] },
        Message::Cancel { piece: 1, offset: 16384, length: 16384 },
    ];
    for m in &msgs {
        let encoded = swarm_engine::wire::encode_message(m);
        assert_eq!(&parse_message(&encoded).unwrap(), m);
    }
}

#[test]
fn wire_grammar_refuses_malformed_frames() {
    assert_eq!(parse_message(&vec![0, 0]), Err(ViolationReason::PayloadLengthMismatch));
    assert_eq!(parse_message(&vec![4, 0, 0, 1]), Err(ViolationReason::PayloadLengthMismatch));
    assert_eq!(parse_message(&vec![6, 0, 0]), Err(ViolationReason::PayloadLengthMismatch));
    assert_eq!(parse_message(&vec![7, 0, 0]), Err(ViolationReason::PayloadLengthMismatch));
    assert_eq!(parse_message(&vec![9]), Err(ViolationReason::UnknownMessageId));
    assert_eq!(parse_message(&vec![42, 1, 2]), Err(ViolationReason::UnknownMessageId));
}

#[test]
fn handshake_check_requires_matching_protocol_and_info_hash() {
    let proto = b"BitTorrent protocol".to_vec();
    let hash = vec![0xabu8; 20];
    assert!(swarm_engine::wire::handshake_ok(&proto, &proto, &hash, &hash));
    let other_hash = vec![0xcdu8; 20];
    assert!(!swarm_engine::wire::handshake_ok(&proto, &proto, &hash, &other_hash));
    let other_proto = b"something else".to_vec();
    assert!(!swarm_engine::wire::handshake_ok(&other_proto, &proto, &hash, &hash));
}

#[test]
fn out_of_range_have_is_a_protocol_violation() {
    let layout = layout2();
    let mut conn = PeerConnection::new(0, layout, Bitfield::init(2));
    conn.on_connect(true);
    conn.on_handshake(true);
    conn.on_have_msg(7);
    assert_eq!(conn.state, ConnState::Closing);
    assert_eq!(
        conn.error,
        Some(P2PError::ProtocolViolation(ViolationReason::OutOfRangeField))
    );
}

#[test]
fn handshake_mismatch_closes_with_handshake_failed() {
    let layout = layout2();
    let mut conn = PeerConnection::new(3, layout, Bitfield::init(2));
    conn.on_connect(true);
    conn.on_handshake(false);
    assert_eq!(conn.state, ConnState::Closed);
    assert_eq!(conn.close_event(), Some(InternalEvent::PeerDisconnected(3, P2PError::HandshakeFailed)));
}

#[test]
fn connect_failure_closes_with_connection_closed() {
    let layout = layout2();
    let mut conn = PeerConnection::new(5, layout, Bitfield::init(2));
    conn.on_connect(false);
    assert_eq!(conn.state, ConnState::Closed);
    assert_eq!(conn.close_event(), Some(InternalEvent::PeerDisconnected(5, P2PError::ConnectionClosed)));
}

#[test]
fn served_request_reads_through_the_file_provider() {
    let layout = layout2();
    let mut storage = MemoryFileProvider::new_zeroed(32);
    storage.write(16, vec![3u8; 16]).unwrap();
    let mut local = Bitfield::init(2);
    local.set_piece(1);
    let mut conn = PeerConnection::new(0, layout, local);
    conn.on_connect(true);
    conn.on_handshake(true);
    let data = conn.on_request_msg(&mut storage, 1, 4, 8).unwrap();
    assert_eq!(data, vec![3u8; 8]);
    assert_eq!(conn.state, ConnState::Established);

    // a request for a piece not held locally is a violation
    let none = conn.on_request_msg(&mut storage, 0, 0, 8);
    assert!(none.is_none());
    assert_eq!(conn.state, ConnState::Closing);
}
