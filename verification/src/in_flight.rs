//! The set of blocks a peer connection has requested and not yet received
//! or canceled, identified by `(piece index, block offset)`. Each connection
//! owns its set exclusively; it is never shared across tasks.
use vstd::prelude::*;

verus! {

pub struct InFlightSet {
    items: Vec<(usize, usize)>,
}

impl View for InFlightSet {
    type V = Set<(usize, usize)>;

    closed spec fn view(&self) -> Set<(usize, usize)> {
        self.items@.to_set()
    }
}

impl InFlightSet {
    /// No block is listed twice.
    pub closed spec fn wf(&self) -> bool {
        forall|i: int, j: int|
            0 <= i < j < self.items@.len() ==> self.items@[i] != self.items@[j]
    }

    pub fn new() -> (r: InFlightSet)
        ensures
            r@ == Set::<(usize, usize)>::empty(),
            r.wf(),
    {
        let r = InFlightSet { items: Vec::new() };
        proof {
            assert(r.items@.to_set() =~= Set::<(usize, usize)>::empty());
        }
        r
    }

    /// Whether the block of `piece` at `offset` is in flight.
    pub fn contains(&self, piece: usize, offset: usize) -> (r: bool)
        ensures
            r == self@.contains((piece, offset)),
    {
        let mut i: usize = 0;
        let n = self.items.len();
        while i < n
            invariant
                i <= n,
                n == self.items@.len(),
                forall|j: int| 0 <= j < i ==> self.items@[j] != (piece, offset),
            decreases n - i,
        {
            let (p, o) = self.items[i];
            if p == piece && o == offset {
                return true;
            }
            i = i + 1;
        }
        false
    }

    /// How many blocks are in flight.
    pub fn len(&self) -> (r: usize)
        requires
            self.wf(),
        ensures
            r == self@.len(),
    {
        proof {
            self.items@.unique_seq_to_set();
        }
        self.items.len()
    }

    /// Record a new outstanding request.
    pub fn insert(&mut self, piece: usize, offset: usize)
        requires
            old(self).wf(),
        ensures
            final(self).wf(),
            final(self)@ == old(self)@.insert((piece, offset)),
    {
        broadcast use vstd::seq_lib::lemma_seq_contains_after_push;

        if !self.contains(piece, offset) {
            let ghost orig = self.items@;
            self.items.push((piece, offset));
            proof {
                assert(self.items@.to_set() =~= orig.to_set().insert((piece, offset)));
                assert forall|i: int, j: int|
                    0 <= i < j < self.items@.len() implies self.items@[i] != self.items@[j] by {
                    if j == self.items@.len() - 1 {
                        assert(orig.contains(orig[i]));
                    }
                }
            }
        } else {
            proof {
                assert(self.items@.to_set() =~= self.items@.to_set().insert((piece, offset)));
            }
        }
    }

    /// The blocks in either set, as one set: what a request loop must not
    /// ask for again.
    pub fn union_with(&self, other: &InFlightSet) -> (r: InFlightSet)
        requires
            self.wf(),
            other.wf(),
        ensures
            r.wf(),
            r@ == self@.union(other@),
    {
        broadcast use vstd::seq_lib::lemma_seq_contains_after_push;

        let mut out = InFlightSet::new();
        let n = self.items.len();
        let mut i: usize = 0;
        while i < n
            invariant
                i <= n,
                n == self.items@.len(),
                self.wf(),
                out.wf(),
                out@ == self.items@.subrange(0, i as int).to_set(),
            decreases n - i,
        {
            let (p, o) = self.items[i];
            out.insert(p, o);
            proof {
                broadcast use vstd::seq_lib::lemma_seq_contains_after_push;

                assert(self.items@.subrange(0, i + 1)
                    =~= self.items@.subrange(0, i as int).push(self.items@[i as int]));
                assert(self.items@.subrange(0, i as int).push(self.items@[i as int]).to_set()
                    =~= self.items@.subrange(0, i as int).to_set().insert(self.items@[i as int]));
            }
            i = i + 1;
        }
        proof {
            assert(self.items@.subrange(0, n as int) =~= self.items@);
        }
        let m = other.items.len();
        let mut j: usize = 0;
        while j < m
            invariant
                j <= m,
                m == other.items@.len(),
                other.wf(),
                out.wf(),
                out@ == self@.union(other.items@.subrange(0, j as int).to_set()),
            decreases m - j,
        {
            let (p, o) = other.items[j];
            out.insert(p, o);
            proof {
                broadcast use vstd::seq_lib::lemma_seq_contains_after_push;

                assert(other.items@.subrange(0, j + 1)
                    =~= other.items@.subrange(0, j as int).push(other.items@[j as int]));
                assert(other.items@.subrange(0, j as int).push(other.items@[j as int]).to_set()
                    =~= other.items@.subrange(0, j as int).to_set().insert(other.items@[j as int]));
                assert(self@.union(other.items@.subrange(0, j as int).to_set()).insert(
                    other.items@[j as int],
                ) =~= self@.union(
                    other.items@.subrange(0, j as int).to_set().insert(other.items@[j as int]),
                ));
            }
            j = j + 1;
        }
        proof {
            assert(other.items@.subrange(0, m as int) =~= other.items@);
        }
        out
    }

    /// Drop every block of `piece`: what a connection does when a completed
    /// piece fails its integrity check and must be fetched again.
    pub fn remove_piece(&mut self, piece: usize)
        requires
            old(self).wf(),
        ensures
            final(self).wf(),
            forall|x: (usize, usize)| final(self)@.contains(x)
                <==> (old(self)@.contains(x) && x.0 != piece),
    {
        let n = self.items.len();
        let mut kept: Vec<(usize, usize)> = Vec::new();
        let mut i: usize = 0;
        while i < n
            invariant
                i <= n,
                n == self.items@.len(),
                self.wf(),
                self.items@.to_set() == old(self)@,
                forall|a: int, b: int| 0 <= a < b < kept@.len() ==> kept@[a] != kept@[b],
                forall|x: (usize, usize)| kept@.contains(x)
                    <==> (self.items@.subrange(0, i as int).contains(x) && x.0 != piece),
            decreases n - i,
        {
            let (p, o) = self.items[i];
            proof {
                broadcast use vstd::seq_lib::lemma_seq_contains_after_push;

                assert(self.items@.subrange(0, i + 1)
                    =~= self.items@.subrange(0, i as int).push(self.items@[i as int]));
                assert forall|j: int| 0 <= j < i
                    implies self.items@[j] != self.items@[i as int] by {}
            }
            if p != piece {
                proof {
                    if kept@.contains(self.items@[i as int]) {
                        let k = choose|k: int|
                            0 <= k < self.items@.subrange(0, i as int).len()
                                && self.items@.subrange(0, i as int)[k] == self.items@[i as int];
                        assert(self.items@[k] == self.items@[i as int]);
                    }
                }
                kept.push((p, o));
            }
            i = i + 1;
        }
        proof {
            assert(self.items@.subrange(0, n as int) =~= self.items@);
        }
        self.items = kept;
    }

    /// Drop a request that was fulfilled or canceled.
    pub fn remove(&mut self, piece: usize, offset: usize)
        requires
            old(self).wf(),
        ensures
            final(self).wf(),
            final(self)@ == old(self)@.remove((piece, offset)),
    {
        let n = self.items.len();
        let mut i: usize = 0;
        while i < n
            invariant
                i <= n,
                n == self.items@.len(),
                self.wf(),
                self.items@.to_set() == old(self)@,
                forall|j: int| 0 <= j < i ==> self.items@[j] != (piece, offset),
            decreases n - i,
        {
            let (p, o) = self.items[i];
            if p == piece && o == offset {
                let ghost orig = self.items@;
                self.items.remove(i);
                proof {
                    assert forall|y: (usize, usize)|
                        self.items@.to_set().contains(y)
                            == orig.to_set().remove((piece, offset)).contains(y) by {
                        if self.items@.contains(y) {
                            let k = choose|k: int| 0 <= k < self.items@.len() && self.items@[k] == y;
                            if k < i {
                                assert(orig[k] == y);
                            } else {
                                assert(orig[k + 1] == y);
                            }
                        }
                        if orig.contains(y) && y != (piece, offset) {
                            let k = choose|k: int| 0 <= k < orig.len() && orig[k] == y;
                            if k < i {
                                assert(self.items@[k] == y);
                            } else {
                                assert(k != i);
                                assert(self.items@[k - 1] == y);
                            }
                        }
                    }
                    assert(self.items@.to_set() =~= orig.to_set().remove((piece, offset)));
                    assert forall|a: int, b: int|
                        0 <= a < b < self.items@.len() implies self.items@[a] != self.items@[b] by {
                        let a0 = if a < i { a } else { a + 1 };
                        let b0 = if b < i { b } else { b + 1 };
                        assert(orig[a0] == self.items@[a]);
                        assert(orig[b0] == self.items@[b]);
                    }
                }
                return;
            }
            i = i + 1;
        }
        proof {
            assert(!self.items@.to_set().contains((piece, offset)));
            assert(self.items@.to_set() =~= old(self)@.remove((piece, offset)));
        }
    }
}

} // verus!
