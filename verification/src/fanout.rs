//! Event fan-out: the coordinator owns the single inbound stream of internal
//! events and forwards a copy of each event to the choker, the data
//! collector, and every currently registered peer connection, in that fixed
//! order and without reordering or coalescing. This module models each
//! target's channel as the sequence of events delivered to it.
use vstd::prelude::*;
use crate::entities::InternalEvent;

verus! {

pub struct FanOut {
    choker: Vec<InternalEvent>,
    collector: Vec<InternalEvent>,
    peers: Vec<Vec<InternalEvent>>,
    active: Vec<bool>,
}

impl FanOut {
    /// Events delivered to the choker so far, oldest first.
    pub closed spec fn choker_log(&self) -> Seq<InternalEvent> {
        self.choker@
    }

    /// Events delivered to the data collector so far, oldest first.
    pub closed spec fn collector_log(&self) -> Seq<InternalEvent> {
        self.collector@
    }

    /// Events delivered to each peer connection so far, by transfer index.
    pub closed spec fn peer_logs(&self) -> Seq<Seq<InternalEvent>> {
        self.peers@.map(|i: int, v: Vec<InternalEvent>| v@)
    }

    /// Which transfer indices are currently registered (a deregistered
    /// index keeps its log but receives nothing further).
    pub closed spec fn peer_active(&self) -> Seq<bool> {
        self.active@
    }

    pub closed spec fn wf(&self) -> bool {
        self.peers@.len() == self.active@.len()
    }

    pub open spec fn peer_count(&self) -> nat {
        self.peer_logs().len()
    }

    pub fn new() -> (r: FanOut)
        ensures
            r.wf(),
            r.choker_log() == Seq::<InternalEvent>::empty(),
            r.collector_log() == Seq::<InternalEvent>::empty(),
            r.peer_count() == 0,
    {
        let r = FanOut {
            choker: Vec::new(),
            collector: Vec::new(),
            peers: Vec::new(),
            active: Vec::new(),
        };
        proof {
            assert(r.peer_logs() =~= Seq::<Seq<InternalEvent>>::empty());
        }
        r
    }

    /// Register the next peer connection; its transfer index is the value
    /// returned, and its delivery log starts empty.
    pub fn register_peer(&mut self) -> (idx: usize)
        requires
            old(self).wf(),
        ensures
            final(self).wf(),
            idx == old(self).peer_count(),
            final(self).peer_logs() == old(self).peer_logs().push(Seq::<InternalEvent>::empty()),
            final(self).peer_active() == old(self).peer_active().push(true),
            final(self).choker_log() == old(self).choker_log(),
            final(self).collector_log() == old(self).collector_log(),
    {
        let idx = self.peers.len();
        self.peers.push(Vec::new());
        self.active.push(true);
        proof {
            assert(self.peer_logs() =~= old(self).peer_logs().push(Seq::<InternalEvent>::empty()));
        }
        idx
    }

    /// Remove a terminated peer connection from the fan-out targets.
    pub fn deregister_peer(&mut self, idx: usize)
        requires
            old(self).wf(),
            idx < old(self).peer_count(),
        ensures
            final(self).wf(),
            final(self).peer_logs() == old(self).peer_logs(),
            final(self).peer_active() == old(self).peer_active().update(idx as int, false),
            final(self).choker_log() == old(self).choker_log(),
            final(self).collector_log() == old(self).collector_log(),
    {
        self.active.set(idx, false);
        proof {
            assert(self.peer_logs() =~= old(self).peer_logs());
        }
    }

    /// Forward one event to the choker, the data collector, and every
    /// registered peer connection, in that fixed order: each target's log
    /// grows by exactly this event, so every target observes the
    /// coordinator's arrival order.
    pub fn broadcast(&mut self, ev: InternalEvent)
        requires
            old(self).wf(),
        ensures
            final(self).wf(),
            final(self).choker_log() == old(self).choker_log().push(ev),
            final(self).collector_log() == old(self).collector_log().push(ev),
            final(self).peer_active() == old(self).peer_active(),
            final(self).peer_logs().len() == old(self).peer_logs().len(),
            forall|i: int| 0 <= i < old(self).peer_logs().len() ==> final(self).peer_logs()[i]
                == if old(self).peer_active()[i] {
                    old(self).peer_logs()[i].push(ev)
                } else {
                    old(self).peer_logs()[i]
                },
    {
        self.choker.push(ev);
        self.collector.push(ev);
        let n = self.peers.len();
        let mut i: usize = 0;
        while i < n
            invariant
                i <= n,
                n == self.peers@.len(),
                self.wf(),
                self.choker@ == old(self).choker@.push(ev),
                self.collector@ == old(self).collector@.push(ev),
                self.active@ == old(self).active@,
                forall|j: int| i <= j < n ==> self.peers@[j] == old(self).peers@[j],
                forall|j: int| 0 <= j < i ==> self.peers@[j]@
                    == if old(self).active@[j] {
                        old(self).peers@[j]@.push(ev)
                    } else {
                        old(self).peers@[j]@
                    },
            decreases n - i,
        {
            if self.active[i] {
                let target = &mut self.peers[i];
                target.push(ev);
            }
            i = i + 1;
        }
    }

    /// Drain a whole inbound stream: each event, in stream order, is
    /// forwarded to every target. With a registration set that does not
    /// change mid-stream, every registered target receives exactly the
    /// stream, in the order the coordinator received it.
    pub fn broadcast_all(&mut self, events: &Vec<InternalEvent>)
        requires
            old(self).wf(),
        ensures
            final(self).wf(),
            final(self).choker_log() == old(self).choker_log() + events@,
            final(self).collector_log() == old(self).collector_log() + events@,
            final(self).peer_active() == old(self).peer_active(),
            final(self).peer_logs().len() == old(self).peer_logs().len(),
            forall|i: int| 0 <= i < old(self).peer_logs().len() ==> final(self).peer_logs()[i]
                == if old(self).peer_active()[i] {
                    old(self).peer_logs()[i] + events@
                } else {
                    old(self).peer_logs()[i]
                },
    {
        let n = events.len();
        let mut i: usize = 0;
        proof {
            assert(self.choker_log() =~= old(self).choker_log() + events@.subrange(0, 0));
            assert(self.collector_log() =~= old(self).collector_log() + events@.subrange(0, 0));
            assert forall|j: int| 0 <= j < old(self).peer_logs().len() && old(self).peer_active()[j]
                implies self.peer_logs()[j] =~= old(self).peer_logs()[j] + events@.subrange(0, 0) by {}
        }
        while i < n
            invariant
                i <= n,
                n == events@.len(),
                self.wf(),
                self.choker_log() == old(self).choker_log() + events@.subrange(0, i as int),
                self.collector_log() == old(self).collector_log() + events@.subrange(0, i as int),
                self.peer_active() == old(self).peer_active(),
                self.peer_logs().len() == old(self).peer_logs().len(),
                forall|j: int| 0 <= j < old(self).peer_logs().len() ==> self.peer_logs()[j]
                    == if old(self).peer_active()[j] {
                        old(self).peer_logs()[j] + events@.subrange(0, i as int)
                    } else {
                        old(self).peer_logs()[j]
                    },
            decreases n - i,
        {
            let ghost before = *self;
            let ev = events[i];
            self.broadcast(ev);
            i = i + 1;
            proof {
                assert(events@.subrange(0, i as int)
                    =~= events@.subrange(0, i as int - 1).push(ev));
                assert(self.choker_log() =~= old(self).choker_log() + events@.subrange(0, i as int));
                assert(self.collector_log()
                    =~= old(self).collector_log() + events@.subrange(0, i as int));
                assert forall|j: int|
                    0 <= j < old(self).peer_logs().len() && old(self).peer_active()[j]
                    implies self.peer_logs()[j]
                        =~= old(self).peer_logs()[j] + events@.subrange(0, i as int) by {
                    assert(self.peer_logs()[j] == before.peer_logs()[j].push(ev));
                }
            }
        }
        proof {
            assert(events@.subrange(0, n as int) =~= events@);
        }
    }

    /// Read back the choker's delivery log.
    pub fn choker_received(&self) -> (r: &Vec<InternalEvent>)
        ensures
            r@ == self.choker_log(),
    {
        &self.choker
    }

    /// Read back the data collector's delivery log.
    pub fn collector_received(&self) -> (r: &Vec<InternalEvent>)
        ensures
            r@ == self.collector_log(),
    {
        &self.collector
    }

    /// Read back one peer connection's delivery log.
    pub fn peer_received(&self, idx: usize) -> (r: &Vec<InternalEvent>)
        requires
            idx < self.peer_count(),
        ensures
            r@ == self.peer_logs()[idx as int],
    {
        &self.peers[idx]
    }
}

} // verus!
