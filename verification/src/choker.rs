//! Choke/unchoke reciprocation policy: rank all established peers by the
//! rates last reported to the choker, unchoke the top `k` plus one
//! optimistic unchoke rotated round-robin among the remaining choked peers,
//! and choke everyone else.
use vstd::prelude::*;
use crate::entities::InternalEvent;

verus! {

/// Throughput last reported for one established peer connection. The choker
/// trusts these rates; it does not measure anything itself.
#[derive(Clone, Copy, PartialEq, Eq, Structural, Debug)]
pub struct PeerRate {
    pub transfer_idx: usize,
    pub rate: u64,
}

/// The peer at position `a` outranks the one at position `b`: higher rate,
/// ties broken by the lower transfer index for determinism.
pub open spec fn outranks(peers: Seq<PeerRate>, a: int, b: int) -> bool {
    ||| peers[a].rate > peers[b].rate
    ||| (peers[a].rate == peers[b].rate && peers[a].transfer_idx < peers[b].transfer_idx)
}

/// Every peer appears under one transfer index only.
pub open spec fn distinct_indices(peers: Seq<PeerRate>) -> bool {
    forall|i: int, j: int|
        0 <= i < j < peers.len() ==> peers[i].transfer_idx != peers[j].transfer_idx
}

/// One evaluation's outcome, by transfer index: the ranked unchoke slots,
/// the optimistic unchoke, and everyone to choke.
pub struct ChokeDecision {
    pub ranked: Vec<usize>,
    pub optimistic: Option<usize>,
    pub choke: Vec<usize>,
}

/// Position `p` holds the first peer left choked by the ranked slots when
/// scanning cyclically from `start`: the round-robin optimistic choice.
pub open spec fn cyclic_first_choked(
    peers: Seq<PeerRate>,
    ranked: Seq<usize>,
    start: int,
    p: int,
) -> bool {
    let n = peers.len() as int;
    &&& 0 <= p < n
    &&& !ranked.contains(peers[p].transfer_idx)
    &&& if p >= start {
        forall|q: int| start <= q < p ==> ranked.contains(peers[q].transfer_idx)
    } else {
        (forall|q: int| start <= q < n ==> ranked.contains(peers[q].transfer_idx))
            && (forall|q: int| 0 <= q < p ==> ranked.contains(peers[q].transfer_idx))
    }
}

/// Everything one choke evaluation promises.
pub open spec fn decision_ok(peers: Seq<PeerRate>, k: int, rotation: int, d: ChokeDecision) -> bool {
    let n = peers.len() as int;
    // exactly min(k, n) ranked slots are filled
    &&& d.ranked@.len() == (if k <= n { k } else { n })
    // at most one optimistic unchoke on top of the k ranked slots
    &&& d.ranked@.len() + (if d.optimistic is Some { 1int } else { 0int }) <= k + 1
    // ranked entries are distinct transfer indices of known peers
    &&& (forall|i: int, j: int| 0 <= i < j < d.ranked@.len() ==> d.ranked@[i] != d.ranked@[j])
    &&& (forall|x: usize| d.ranked@.contains(x)
        ==> exists|p: int| 0 <= p < n && peers[p].transfer_idx == x)
    // every ranked peer outranks every peer left out of the ranked slots
    &&& (forall|p: int, q: int|
        0 <= p < n && 0 <= q < n && d.ranked@.contains(peers[p].transfer_idx)
            && !d.ranked@.contains(peers[q].transfer_idx) ==> outranks(peers, p, q))
    // an optimistic unchoke exists exactly when some peer is left choked,
    // and it is the round-robin choice among the choked peers
    &&& (d.optimistic is Some <==> n > d.ranked@.len())
    &&& (d.optimistic matches Some(x) ==> exists|p: int|
        cyclic_first_choked(peers, d.ranked@, rotation % n, p) && peers[p].transfer_idx == x)
    // everyone else is choked, nobody is both
    &&& (forall|p: int| 0 <= p < n ==> (d.choke@.contains(peers[p].transfer_idx)
        <==> (!d.ranked@.contains(peers[p].transfer_idx)
            && d.optimistic != Some(peers[p].transfer_idx))))
    &&& (forall|x: usize| d.choke@.contains(x)
        ==> exists|p: int| 0 <= p < n && peers[p].transfer_idx == x)
}

/// How many entries of `s` are set.
pub open spec fn count_true(s: Seq<bool>) -> int
    decreases s.len(),
{
    if s.len() == 0 {
        0
    } else {
        count_true(s.drop_last()) + if s.last() { 1int } else { 0int }
    }
}

proof fn lemma_count_true_bounds(s: Seq<bool>)
    ensures
        0 <= count_true(s) <= s.len(),
    decreases s.len(),
{
    if s.len() > 0 {
        lemma_count_true_bounds(s.drop_last());
    }
}

proof fn lemma_count_true_update(s: Seq<bool>, i: int)
    requires
        0 <= i < s.len(),
        !s[i],
    ensures
        count_true(s.update(i, true)) == count_true(s) + 1,
    decreases s.len(),
{
    if i == s.len() - 1 {
        assert(s.update(i, true).drop_last() =~= s.drop_last());
    } else {
        lemma_count_true_update(s.drop_last(), i);
        assert(s.update(i, true).drop_last() =~= s.drop_last().update(i, true));
    }
}

proof fn lemma_count_true_full(s: Seq<bool>)
    requires
        forall|i: int| 0 <= i < s.len() ==> s[i],
    ensures
        count_true(s) == s.len(),
    decreases s.len(),
{
    if s.len() > 0 {
        lemma_count_true_full(s.drop_last());
    }
}

/// The unselected position that outranks all other unselected positions,
/// or nothing when every position is already selected.
fn find_best_unselected(peers: &Vec<PeerRate>, selected: &Vec<bool>) -> (r: Option<usize>)
    requires
        selected@.len() == peers@.len(),
        distinct_indices(peers@),
    ensures
        r matches Some(b) ==> (b < peers@.len() && !selected@[b as int] && forall|q: int|
            0 <= q < peers@.len() && !selected@[q] && q != b ==> outranks(peers@, b as int, q)),
        r is None ==> forall|q: int| 0 <= q < peers@.len() ==> selected@[q],
{
    let n = peers.len();
    let mut best: Option<usize> = None;
    let mut p: usize = 0;
    while p < n
        invariant
            p <= n,
            n == peers@.len(),
            selected@.len() == n,
            distinct_indices(peers@),
            best is None ==> forall|q: int| 0 <= q < p ==> selected@[q],
            best matches Some(b) ==> (b < p && !selected@[b as int] && forall|q: int|
                0 <= q < p && !selected@[q] && q != b ==> outranks(peers@, b as int, q)),
        decreases n - p,
    {
        if !selected[p] {
            match best {
                None => {
                    best = Some(p);
                },
                Some(b) => {
                    let better = peers[p].rate > peers[b].rate
                        || (peers[p].rate == peers[b].rate
                            && peers[p].transfer_idx < peers[b].transfer_idx);
                    if better {
                        best = Some(p);
                    }
                },
            }
        }
        p = p + 1;
    }
    best
}

/// Evaluate all peers once: fill the ranked unchoke slots best-first, pick
/// the optimistic unchoke by round-robin among the rest, choke everyone
/// else.
pub fn decide(peers: &Vec<PeerRate>, k: usize, rotation: usize) -> (d: ChokeDecision)
    requires
        distinct_indices(peers@),
    ensures
        decision_ok(peers@, k as int, rotation as int, d),
{
    broadcast use vstd::seq_lib::lemma_seq_contains_after_push;

    let n = peers.len();
    let mut selected: Vec<bool> = Vec::new();
    let mut i: usize = 0;
    while i < n
        invariant
            i <= n,
            selected@.len() == i,
            forall|j: int| 0 <= j < i ==> !selected@[j],
        decreases n - i,
    {
        selected.push(false);
        i = i + 1;
    }
    proof {
        assert(count_true(selected@) == 0) by {
            lemma_count_true_none(selected@);
        }
    }
    let mut ranked: Vec<usize> = Vec::new();
    let mut slot: usize = 0;
    let mut exhausted: bool = false;
    while slot < k && !exhausted
        invariant
            slot <= k,
            n == peers@.len(),
            selected@.len() == n,
            distinct_indices(peers@),
            count_true(selected@) == ranked@.len(),
            !exhausted ==> ranked@.len() == slot,
            exhausted ==> (n < k && ranked@.len() == n && forall|q: int| 0 <= q < n
                ==> selected@[q]),
            forall|p: int| 0 <= p < n ==> (selected@[p]
                <==> ranked@.contains(peers[p].transfer_idx)),
            forall|i2: int, j2: int| 0 <= i2 < j2 < ranked@.len() ==> ranked@[i2] != ranked@[j2],
            forall|x: usize| ranked@.contains(x)
                ==> exists|p: int| 0 <= p < n && peers@[p].transfer_idx == x,
            forall|p: int, q: int| 0 <= p < n && 0 <= q < n && selected@[p] && !selected@[q]
                ==> outranks(peers@, p, q),
        decreases k - slot + (if exhausted { 0int } else { 1int }),
    {
        match find_best_unselected(peers, &selected) {
            None => {
                proof {
                    lemma_count_true_full(selected@);
                }
                exhausted = true;
            },
            Some(b) => {
                proof {
                    lemma_count_true_update(selected@, b as int);
                }
                let ghost old_selected = selected@;
                let ghost old_ranked = ranked@;
                selected.set(b, true);
                ranked.push(peers[b].transfer_idx);
                proof {
                    broadcast use vstd::seq_lib::lemma_seq_contains_after_push;

                    assert(selected@ =~= old_selected.update(b as int, true));
                    assert(!old_ranked.contains(peers@[b as int].transfer_idx));
                    assert forall|i2: int| 0 <= i2 < old_ranked.len()
                        implies old_ranked[i2] != peers@[b as int].transfer_idx by {
                        assert(old_ranked.contains(old_ranked[i2]));
                    }
                    assert forall|p: int| 0 <= p < n implies (selected@[p]
                        <==> ranked@.contains(peers@[p].transfer_idx)) by {
                        if p != b && peers@[p].transfer_idx == peers@[b as int].transfer_idx {
                            assert(false);
                        }
                    }
                }
                slot = slot + 1;
            },
        }
    }
    proof {
        lemma_count_true_bounds(selected@);
        if k as int <= n as int {
            assert(ranked@.len() == k);
        } else {
            if !exhausted {
                assert(ranked@.len() == k) by {
                    assert(slot == k);
                }
            }
        }
    }
    // the ranked slots hold exactly min(k, n) peers
    assert(ranked@.len() == (if k as int <= n as int { k as int } else { n as int }));
    let ranked_len = ranked.len();
    let mut optimistic: Option<usize> = None;
    let ghost mut opt_pos: int = 0;
    if ranked_len < n {
        let start: usize = rotation % n;
        let mut p: usize = start;
        let mut found: Option<usize> = None;
        while p < n
            invariant
                start <= p <= n,
                n == peers@.len(),
                selected@.len() == n,
                found matches Some(fp) ==> (start <= fp < n && !selected@[fp as int]
                    && forall|q: int| start <= q < fp ==> selected@[q]),
                found is None ==> forall|q: int| start <= q < p ==> selected@[q],
            decreases n - p + (if found is Some { 0int } else { 1int }),
        {
            if found.is_none() && !selected[p] {
                found = Some(p);
                p = n;
            } else {
                p = p + 1;
            }
        }
        if found.is_none() {
            proof {
                assert(forall|q: int| start <= q < n ==> selected@[q]);
            }
            let mut q: usize = 0;
            while q < start
                invariant
                    q <= start,
                    start <= n,
                    n == peers@.len(),
                    selected@.len() == n,
                    found matches Some(fp) ==> (0 <= fp < start && !selected@[fp as int]
                        && forall|r2: int| 0 <= r2 < fp ==> selected@[r2]),
                    found is None ==> forall|r2: int| 0 <= r2 < q ==> selected@[r2],
                decreases start - q + (if found is Some { 0int } else { 1int }),
            {
                if found.is_none() && !selected[q] {
                    found = Some(q);
                    q = start;
                } else {
                    q = q + 1;
                }
            }
        }
        match found {
            Some(fp) => {
                optimistic = Some(peers[fp].transfer_idx);
                proof {
                    opt_pos = fp as int;
                    assert forall|q: int| 0 <= q < n && selected@[q]
                        implies ranked@.contains(peers@[q].transfer_idx) by {}
                    assert(!selected@[fp as int]);
                    assert(!ranked@.contains(peers@[fp as int].transfer_idx));
                    if fp >= start {
                        assert forall|q: int| start <= q < fp
                            implies ranked@.contains(peers@[q].transfer_idx) by {
                            assert(selected@[q]);
                        }
                    } else {
                        assert forall|q: int| start <= q < n
                            implies ranked@.contains(peers@[q].transfer_idx) by {
                            assert(selected@[q]);
                        }
                        assert forall|q: int| 0 <= q < fp
                            implies ranked@.contains(peers@[q].transfer_idx) by {
                            assert(selected@[q]);
                        }
                    }
                    assert(cyclic_first_choked(peers@, ranked@, start as int, fp as int));
                }
            },
            None => {
                proof {
                    lemma_count_true_full(selected@);
                }
                assert(false);
            },
        }
    }
    let ghost opt_ghost = optimistic;
    let mut choke: Vec<usize> = Vec::new();
    let mut p: usize = 0;
    while p < n
        invariant
            p <= n,
            n == peers@.len(),
            selected@.len() == n,
            distinct_indices(peers@),
            optimistic == opt_ghost,
            optimistic matches Some(x) ==> (0 <= opt_pos < n && peers@[opt_pos].transfer_idx == x
                && !selected@[opt_pos]),
            forall|j: int| 0 <= j < n ==> (selected@[j]
                <==> ranked@.contains(peers@[j].transfer_idx)),
            forall|q: int| 0 <= q < p ==> (choke@.contains(peers@[q].transfer_idx)
                <==> (!selected@[q] && (optimistic is None || q != opt_pos))),
            forall|q: int| p <= q < n ==> !choke@.contains(peers@[q].transfer_idx),
            forall|x: usize| choke@.contains(x) ==> exists|q: int|
                0 <= q < p && peers@[q].transfer_idx == x && !selected@[q],
        decreases n - p,
    {
        let is_opt = match optimistic {
            Some(x) => peers[p].transfer_idx == x,
            None => false,
        };
        proof {
            if optimistic is Some {
                if p as int != opt_pos
                    && peers@[p as int].transfer_idx == peers@[opt_pos].transfer_idx {
                    assert(false);
                }
            }
        }
        if !selected[p] && !is_opt {
            choke.push(peers[p].transfer_idx);
        }
        proof {
            broadcast use vstd::seq_lib::lemma_seq_contains_after_push;

            assert forall|q: int| 0 <= q < n && q != p as int
                implies peers@[q].transfer_idx != peers@[p as int].transfer_idx by {
                if q < p as int {
                    assert(peers@[q].transfer_idx != peers@[p as int].transfer_idx);
                } else {
                    assert(peers@[p as int].transfer_idx != peers@[q].transfer_idx);
                }
            }
        }
        p = p + 1;
    }
    let d = ChokeDecision { ranked, optimistic, choke };
    proof {
        assert forall|p2: int| 0 <= p2 < n implies (d.choke@.contains(peers@[p2].transfer_idx)
            <==> (!d.ranked@.contains(peers@[p2].transfer_idx)
                && d.optimistic != Some(peers@[p2].transfer_idx))) by {
            assert(selected@[p2] <==> ranked@.contains(peers@[p2].transfer_idx));
            assert(choke@.contains(peers@[p2].transfer_idx)
                <==> (!selected@[p2] && (opt_ghost is None || p2 != opt_pos)));
            match opt_ghost {
                Some(x) => {
                    assert(peers@[opt_pos].transfer_idx == x);
                    if peers@[p2].transfer_idx == x && p2 != opt_pos {
                        assert(false);
                    }
                    assert((d.optimistic != Some(peers@[p2].transfer_idx)) <==> (p2 != opt_pos));
                },
                None => {},
            }
        }
    }
    d
}

proof fn lemma_count_true_none(s: Seq<bool>)
    requires
        forall|i: int| 0 <= i < s.len() ==> !s[i],
    ensures
        count_true(s) == 0,
    decreases s.len(),
{
    if s.len() > 0 {
        lemma_count_true_none(s.drop_last());
    }
}

/// What one forwarded event does to the choker's view of the swarm: a
/// connect registers the peer at rate zero, a disconnect removes it, and a
/// received block counts toward its peer's recent rate. The result says
/// whether the peer count changed, which asks for an immediate
/// re-evaluation (the periodic tick re-evaluates regardless).
pub fn update_rates(rates: &mut Vec<PeerRate>, ev: InternalEvent) -> (reevaluate: bool)
    requires
        distinct_indices(old(rates)@),
    ensures
        distinct_indices(final(rates)@),
        ev matches InternalEvent::PeerConnected(idx) ==> {
            &&& reevaluate
            &&& if exists|i: int|
                0 <= i < old(rates)@.len() && old(rates)@[i].transfer_idx == idx {
                final(rates)@ == old(rates)@
            } else {
                final(rates)@ == old(rates)@.push(PeerRate { transfer_idx: idx, rate: 0 })
            }
        },
        ev matches InternalEvent::PeerDisconnected(idx, e) ==> {
            &&& reevaluate
            &&& if exists|i: int|
                0 <= i < old(rates)@.len() && old(rates)@[i].transfer_idx == idx {
                exists|i: int|
                    0 <= i < old(rates)@.len() && old(rates)@[i].transfer_idx == idx
                        && final(rates)@ == old(rates)@.remove(i)
            } else {
                final(rates)@ == old(rates)@
            }
        },
        ev matches InternalEvent::BlockReceived(idx, p, o) ==> {
            &&& !reevaluate
            &&& final(rates)@.len() == old(rates)@.len()
            &&& forall|i: int| 0 <= i < old(rates)@.len() ==> final(rates)@[i]
                == if old(rates)@[i].transfer_idx == idx {
                    (PeerRate {
                        transfer_idx: idx,
                        rate: if old(rates)@[i].rate == u64::MAX {
                            u64::MAX
                        } else {
                            (old(rates)@[i].rate + 1) as u64
                        },
                    })
                } else {
                    old(rates)@[i]
                }
        },
        ev matches InternalEvent::PieceCompleted(p) ==> {
            &&& !reevaluate
            &&& final(rates)@ == old(rates)@
        },
{
    match ev {
        InternalEvent::PeerConnected(idx) => {
            let n = rates.len();
            let mut i: usize = 0;
            let mut present = false;
            while i < n
                invariant
                    i <= n,
                    n == rates@.len(),
                    present == exists|j: int| 0 <= j < i && rates@[j].transfer_idx == idx,
                decreases n - i,
            {
                if rates[i].transfer_idx == idx {
                    present = true;
                }
                i = i + 1;
            }
            if !present {
                rates.push(PeerRate { transfer_idx: idx, rate: 0 });
                proof {
                    assert forall|a: int, b: int|
                        0 <= a < b < rates@.len() implies rates@[a].transfer_idx
                            != rates@[b].transfer_idx by {
                        if b == rates@.len() - 1 {
                            assert(old(rates)@[a].transfer_idx != idx);
                        }
                    }
                }
            }
            true
        },
        InternalEvent::PeerDisconnected(idx, err) => {
            let n = rates.len();
            let mut i: usize = 0;
            while i < n
                invariant
                    ev == InternalEvent::PeerDisconnected(idx, err),
                    i <= n,
                    n == rates@.len(),
                    rates@ == old(rates)@,
                    distinct_indices(rates@),
                    forall|j: int| 0 <= j < i ==> rates@[j].transfer_idx != idx,
                decreases n - i,
            {
                if rates[i].transfer_idx == idx {
                    let ghost orig = rates@;
                    rates.remove(i);
                    proof {
                        assert forall|a: int, b: int|
                            0 <= a < b < rates@.len() implies rates@[a].transfer_idx
                                != rates@[b].transfer_idx by {
                            let a0 = if a < i { a } else { a + 1 };
                            let b0 = if b < i { b } else { b + 1 };
                            assert(orig[a0] == rates@[a]);
                            assert(orig[b0] == rates@[b]);
                        }
                    }
                    return true;
                }
                i = i + 1;
            }
            true
        },
        InternalEvent::BlockReceived(idx, _, _) => {
            let n = rates.len();
            let mut i: usize = 0;
            while i < n
                invariant
                    i <= n,
                    n == rates@.len(),
                    distinct_indices(old(rates)@),
                    rates@.len() == old(rates)@.len(),
                    forall|j: int| i <= j < n ==> rates@[j] == old(rates)@[j],
                    forall|j: int| 0 <= j < i ==> rates@[j]
                        == if old(rates)@[j].transfer_idx == idx {
                            (PeerRate {
                                transfer_idx: idx,
                                rate: if old(rates)@[j].rate == u64::MAX {
                                    u64::MAX
                                } else {
                                    (old(rates)@[j].rate + 1) as u64
                                },
                            })
                        } else {
                            old(rates)@[j]
                        },
                decreases n - i,
            {
                if rates[i].transfer_idx == idx {
                    let r = rates[i].rate;
                    let bumped = if r == u64::MAX {
                        u64::MAX
                    } else {
                        r + 1
                    };
                    rates.set(i, PeerRate { transfer_idx: idx, rate: bumped });
                }
                i = i + 1;
            }
            proof {
                assert forall|a: int, b: int|
                    0 <= a < b < rates@.len() implies rates@[a].transfer_idx
                        != rates@[b].transfer_idx by {
                    assert(old(rates)@[a].transfer_idx != old(rates)@[b].transfer_idx);
                }
            }
            false
        },
        InternalEvent::PieceCompleted(_) => false,
    }
}

/// Long-lived choker state: the configured ranked slot count and the
/// round-robin cursor for the optimistic unchoke.
pub struct Choker {
    pub k: usize,
    pub rotation: usize,
}

impl Choker {
    /// A choker with `k` ranked unchoke slots; the rotation starts at the
    /// first peer.
    pub fn new(k: usize) -> (r: Choker)
        ensures
            r.k == k,
            r.rotation == 0,
    {
        Choker { k, rotation: 0 }
    }

    /// One periodic evaluation (or one re-evaluation after a peer-count
    /// change): decide from the rates last reported, then advance the
    /// round-robin cursor so the next optimistic unchoke rotates.
    pub fn tick(&mut self, peers: &Vec<PeerRate>) -> (d: ChokeDecision)
        requires
            distinct_indices(peers@),
        ensures
            decision_ok(peers@, old(self).k as int, old(self).rotation as int, d),
            final(self).k == old(self).k,
            final(self).rotation == if old(self).rotation == usize::MAX {
                0usize
            } else {
                (old(self).rotation + 1) as usize
            },
    {
        let d = decide(peers, self.k, self.rotation);
        if self.rotation == usize::MAX {
            self.rotation = 0;
        } else {
            self.rotation = self.rotation + 1;
        }
        d
    }
}

} // verus!
