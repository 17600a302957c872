use swarm_engine::bitfield::Bitfield;
use swarm_engine::choker::{decide, update_rates, Choker, PeerRate};
use swarm_engine::entities::{InternalEvent, P2PError};
use swarm_engine::entities::TorrentLayout;
use swarm_engine::in_flight::InFlightSet;
use swarm_engine::piece_picker::PiecePicker;

fn layout3() -> TorrentLayout {
    TorrentLayout { pieces: 3, piece_length: 16, total_length: 48, block_size: 8 }
}

fn all_set(n: usize) -> Bitfield {
    let bytes = vec![0xffu8; (n + 7) / 8];
    Bitfield::from_bytes(&bytes, n)
}

#[test]
fn picker_prefers_the_rarer_piece() {
    let mut picker = PiecePicker::new(layout3(), 0);
    // availability: piece 0 seen 3 times, piece 1 once, piece 2 twice
    for _ in 0..3 {
        picker.record_have(0);
    }
    picker.record_have(1);
    picker.record_have(2);
    picker.record_have(2);
    let local = Bitfield::init(3);
    let remote = all_set(3);
    let req = picker.next_request(&local, &remote, &InFlightSet::new()).unwrap();
    assert_eq!(req.piece, 1);
    assert_eq!(req.offset, 0);
    assert_eq!(req.length, 8);
}

#[test]
fn picker_breaks_ties_by_lower_index() {
    let mut picker = PiecePicker::new(layout3(), 0);
    picker.record_have(0);
    picker.record_have(1);
    picker.record_have(2);
    let local = Bitfield::init(3);
    let remote = all_set(3);
    let req = picker.next_request(&local, &remote, &InFlightSet::new()).unwrap();
    assert_eq!(req.piece, 0);
}

#[test]
fn picker_never_picks_a_locally_held_piece() {
    let mut picker = PiecePicker::new(layout3(), 0);
    // the rarest piece is piece 1, but the local client already holds it
    for _ in 0..3 {
        picker.record_have(0);
    }
    picker.record_have(1);
    picker.record_have(2);
    picker.record_have(2);
    let mut local = Bitfield::init(3);
    local.set_piece(1);
    let remote = all_set(3);
    let req = picker.next_request(&local, &remote, &InFlightSet::new()).unwrap();
    assert_ne!(req.piece, 1);
    assert_eq!(req.piece, 2);
}

#[test]
fn picker_returns_none_when_remote_has_nothing_useful() {
    let picker = PiecePicker::new(layout3(), 0);
    let local = Bitfield::init(3);
    let remote = Bitfield::init(3);
    assert!(picker.next_request(&local, &remote, &InFlightSet::new()).is_none());
}

#[test]
fn picker_skips_blocks_already_in_flight() {
    let mut picker = PiecePicker::new(layout3(), 0);
    picker.record_have(0);
    let local = Bitfield::init(3);
    let mut remote = Bitfield::init(3);
    remote.set_piece(0);
    let mut in_flight = InFlightSet::new();
    in_flight.insert(0, 0);
    let req = picker.next_request(&local, &remote, &in_flight).unwrap();
    assert_eq!((req.piece, req.offset), (0, 8));
    in_flight.insert(0, 8);
    // outside endgame, a fully in-flight piece yields nothing
    assert!(picker.next_request(&local, &remote, &in_flight).is_none());
}

#[test]
fn picker_availability_from_whole_bitfield() {
    let mut picker = PiecePicker::new(layout3(), 0);
    let mut seen = Bitfield::init(3);
    seen.set_piece(0);
    seen.set_piece(2);
    picker.record_bitfield(&seen);
    picker.record_have(0);
    // counts now 2, 0, 1: piece 1 is rarest among remote-held
    let local = Bitfield::init(3);
    let remote = all_set(3);
    let req = picker.next_request(&local, &remote, &InFlightSet::new()).unwrap();
    assert_eq!(req.piece, 1);
}

#[test]
fn endgame_returns_in_flight_blocks() {
    // one 8-byte piece of a single block; threshold 2 > 1 remaining block
    let l = TorrentLayout { pieces: 1, piece_length: 8, total_length: 8, block_size: 8 };
    let mut picker = PiecePicker::new(l, 2);
    picker.record_have(0);
    let local = Bitfield::init(1);
    let mut remote = Bitfield::init(1);
    remote.set_piece(0);
    let mut in_flight = InFlightSet::new();
    in_flight.insert(0, 0);
    assert!(picker.is_endgame(&local));
    let req = picker.next_request(&local, &remote, &in_flight).unwrap();
    assert_eq!((req.piece, req.offset, req.length), (0, 0, 8));
}

fn rates(list: &[(usize, u64)]) -> Vec<PeerRate> {
    list.iter().map(|&(transfer_idx, rate)| PeerRate { transfer_idx, rate }).collect()
}

#[test]
fn choker_unchokes_at_most_k_plus_one() {
    let peers = rates(&[(0, 50), (1, 10), (2, 99), (3, 40), (4, 70)]);
    let d = decide(&peers, 2, 0);
    assert_eq!(d.ranked, vec![2, 4]);
    assert!(d.optimistic.is_some());
    assert!(d.ranked.len() + 1 <= 3);
    // everyone else is choked
    let opt = d.optimistic.unwrap();
    let mut expected: Vec<usize> = vec![0, 1, 3];
    expected.retain(|&i| i != opt);
    assert_eq!(d.choke, expected);
}

#[test]
fn choker_ranks_ties_by_lower_transfer_idx() {
    let peers = rates(&[(3, 10), (1, 10), (2, 10)]);
    let d = decide(&peers, 2, 0);
    assert_eq!(d.ranked, vec![1, 2]);
}

#[test]
fn choker_without_spare_peers_has_no_optimistic() {
    let peers = rates(&[(0, 5), (1, 9)]);
    let d = decide(&peers, 3, 0);
    assert_eq!(d.ranked, vec![1, 0]);
    assert!(d.optimistic.is_none());
    assert!(d.choke.is_empty());
}

#[test]
fn choker_optimistic_rotates_round_robin() {
    let peers = rates(&[(0, 100), (1, 0), (2, 0), (3, 0)]);
    let d1 = decide(&peers, 1, 1);
    let d2 = decide(&peers, 1, 2);
    let d3 = decide(&peers, 1, 3);
    assert_eq!(d1.ranked, vec![0]);
    assert_eq!(d1.optimistic, Some(1));
    assert_eq!(d2.optimistic, Some(2));
    assert_eq!(d3.optimistic, Some(3));
}

#[test]
fn choker_tick_advances_rotation() {
    let peers = rates(&[(0, 100), (1, 0), (2, 0), (3, 0)]);
    let mut choker = Choker::new(1);
    // the cursor starts at peer position 0 (held by the ranked peer), so the
    // optimistic choice moves forward as the cursor passes each position
    let d1 = choker.tick(&peers);
    let d2 = choker.tick(&peers);
    let d3 = choker.tick(&peers);
    assert_eq!(d1.optimistic, Some(1));
    assert_eq!(d2.optimistic, Some(1));
    assert_eq!(d3.optimistic, Some(2));
    assert_eq!(choker.rotation, 3);
}

#[test]
fn choker_view_follows_the_event_stream() {
    let mut rates: Vec<PeerRate> = Vec::new();
    assert!(update_rates(&mut rates, InternalEvent::PeerConnected(3)));
    assert!(update_rates(&mut rates, InternalEvent::PeerConnected(5)));
    // a repeated connect changes nothing
    assert!(update_rates(&mut rates, InternalEvent::PeerConnected(3)));
    assert_eq!(
        rates,
        vec![PeerRate { transfer_idx: 3, rate: 0 }, PeerRate { transfer_idx: 5, rate: 0 }]
    );
    // received blocks raise the rate; completions change nothing
    assert!(!update_rates(&mut rates, InternalEvent::BlockReceived(5, 0, 0)));
    assert!(!update_rates(&mut rates, InternalEvent::BlockReceived(5, 0, 8)));
    assert!(!update_rates(&mut rates, InternalEvent::PieceCompleted(0)));
    assert_eq!(rates[1], PeerRate { transfer_idx: 5, rate: 2 });
    // a disconnect drops the peer and asks for re-evaluation
    assert!(update_rates(&mut rates, InternalEvent::PeerDisconnected(3, P2PError::Timeout)));
    assert_eq!(rates, vec![PeerRate { transfer_idx: 5, rate: 2 }]);
}
