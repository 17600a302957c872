//! Coordinator startup: announce to the tracker, build the initial local
//! bitfield, and assign one stable transfer index per returned peer. The
//! surrounding task performs the announce itself and hands its outcome in;
//! this module decides everything that follows from it.
use vstd::prelude::*;
use crate::bitfield::Bitfield;
use crate::entities::{Peer, TorrentLayout};

verus! {

/// Startup-phase failure: the whole transfer fails to start and no tasks
/// are spawned.
#[derive(Debug)]
pub enum TransferError {
    TrackerCallFailed(String),
}

/// Everything the coordinator spawns after a successful announce: the
/// all-zero local bitfield, one connection slot per returned peer under a
/// unique transfer index, and the peer count that seeds the choker.
pub struct StartupPlan {
    pub local_bitfield: Bitfield,
    pub connections: Vec<(usize, Peer)>,
    pub choker_seed_peers: usize,
}

impl StartupPlan {
    pub open spec fn wf(self, layout: TorrentLayout, peers: Seq<Peer>) -> bool {
        &&& self.local_bitfield@.len() == layout.pieces
        &&& (forall|i: int| 0 <= i < layout.pieces ==> !self.local_bitfield@[i])
        &&& self.connections@.len() == peers.len()
        &&& (forall|i: int| 0 <= i < peers.len() ==> self.connections@[i] == (i as usize, peers[i]))
        &&& self.choker_seed_peers == peers.len()
    }
}

/// Decide how the transfer starts from the tracker's answer. A failed
/// announce is fatal: it surfaces as `TrackerCallFailed` with the tracker's
/// own message and nothing is spawned. A successful announce (with any
/// number of peers, zero included) yields a full plan: transfer indices
/// `0..n` in the tracker's order, a fresh all-zero bitfield, and the choker
/// seeded with the peer count.
pub fn plan_startup(layout: &TorrentLayout, tracker_response: Result<Vec<Peer>, String>) -> (r:
    Result<StartupPlan, TransferError>)
    requires
        layout.wf(),
    ensures
        tracker_response matches Err(msg) ==> (r matches Err(e)
            && e matches TransferError::TrackerCallFailed(m) && m == msg),
        tracker_response matches Ok(peers) ==> (r matches Ok(plan) && plan.wf(*layout, peers@)),
{
    let peers = match tracker_response {
        Ok(peers) => peers,
        Err(msg) => {
            return Err(TransferError::TrackerCallFailed(msg));
        },
    };
    let local_bitfield = Bitfield::init(layout.pieces);
    let mut connections: Vec<(usize, Peer)> = Vec::new();
    let n = peers.len();
    let mut i: usize = 0;
    while i < n
        invariant
            i <= n,
            n == peers@.len(),
            connections@.len() == i,
            forall|j: int| 0 <= j < i ==> connections@[j] == (j as usize, peers@[j]),
        decreases n - i,
    {
        connections.push((i, peers[i]));
        i = i + 1;
    }
    Ok(StartupPlan { local_bitfield, connections, choker_seed_peers: n })
}

} // verus!
