//! Rarest-first piece selection: among pieces the remote peer has and the
//! local client lacks, pick the piece with the lowest global availability
//! (ties to the lowest index), and within it the lowest-offset block not
//! already requested. Once few blocks remain overall, endgame mode allows
//! duplicate requests for blocks that are already in flight.
use vstd::prelude::*;
use crate::bitfield::Bitfield;
use crate::entities::{lemma_next_multiple, lemma_piece_size_bounds, lemma_step_multiple,
    TorrentLayout};
use crate::in_flight::InFlightSet;

verus! {

/// One block to request from a peer.
#[derive(Clone, Copy, PartialEq, Eq, Structural, Debug)]
pub struct BlockRequest {
    pub piece: usize,
    pub offset: usize,
    pub length: usize,
}

/// Piece `p` still has a block that is not in flight.
pub open spec fn has_free_block(
    layout: TorrentLayout,
    p: usize,
    in_flight: Set<(usize, usize)>,
) -> bool {
    exists|off: usize|
        layout.valid_block_offset(p as int, off as int) && !in_flight.contains((p, off))
}

/// The block offset the picker must choose within piece `p`: the lowest
/// offset not in flight, or — when every block of the piece is already in
/// flight (endgame duplicates) — the piece's first block.
pub open spec fn chosen_offset_ok(
    layout: TorrentLayout,
    p: usize,
    off: usize,
    in_flight: Set<(usize, usize)>,
) -> bool {
    if has_free_block(layout, p, in_flight) {
        &&& layout.valid_block_offset(p as int, off as int)
        &&& !in_flight.contains((p, off))
        &&& forall|o2: usize|
            layout.valid_block_offset(p as int, o2 as int) && !in_flight.contains((p, o2))
                ==> off <= o2
    } else {
        off == 0
    }
}

/// Blocks still to fetch in pieces `0..upto` that the local client lacks.
pub open spec fn remaining_blocks(layout: TorrentLayout, local: Seq<bool>, upto: int) -> int
    decreases upto,
{
    if upto <= 0 {
        0
    } else {
        remaining_blocks(layout, local, upto - 1) + if local[upto - 1] {
            0int
        } else {
            layout.num_blocks(upto - 1)
        }
    }
}

proof fn lemma_remaining_monotone(layout: TorrentLayout, local: Seq<bool>, a: int, b: int)
    requires
        layout.wf(),
        local.len() == layout.pieces,
        0 <= a <= b <= layout.pieces,
    ensures
        remaining_blocks(layout, local, a) <= remaining_blocks(layout, local, b),
    decreases b,
{
    if a < b {
        lemma_remaining_monotone(layout, local, a, b - 1);
        lemma_piece_size_bounds(layout, b - 1);
        lemma_num_blocks_nonneg(layout, b - 1);
    }
}

proof fn lemma_num_blocks_nonneg(layout: TorrentLayout, p: int) by (nonlinear_arith)
    requires
        layout.wf(),
        0 <= p < layout.pieces,
        1 <= layout.piece_size(p),
    ensures
        layout.num_blocks(p) >= 0,
{
}

pub struct PiecePicker {
    layout: TorrentLayout,
    availability: Vec<usize>,
    endgame_threshold: usize,
}

/// The terminal-phase guarantee behind endgame duplicates: when every piece
/// but `p` is held locally, and every block of `p` but the one at `b` is
/// already accounted for against this connection (in flight or received),
/// any request the picker's contract admits targets exactly `(p, b)`. Two
/// connections in this position therefore both issue the same final-block
/// request — duplicates to different peers instead of stalling on a single
/// slow holder.
pub proof fn lemma_endgame_targets_last_block(
    picker: PiecePicker,
    local: Seq<bool>,
    remote: Seq<bool>,
    blocked: Set<(usize, usize)>,
    p: usize,
    b: usize,
    req_piece: usize,
    req_offset: usize,
)
    requires
        local.len() == picker.layout().pieces,
        (p as int) < picker.layout().pieces,
        !local[p as int],
        forall|q: int| 0 <= q < picker.layout().pieces && q != p ==> local[q],
        picker.layout().valid_block_offset(p as int, b as int),
        !blocked.contains((p, b)),
        forall|off: usize|
            picker.layout().valid_block_offset(p as int, off as int) && off != b
                ==> blocked.contains((p, off)),
        picker.candidate(local, remote, blocked, req_piece as int),
        chosen_offset_ok(picker.layout(), req_piece, req_offset, blocked),
    ensures
        req_piece == p,
        req_offset == b,
{
    assert(!local[req_piece as int]);
    assert(req_piece == p);
    assert(has_free_block(picker.layout(), p, blocked)) by {
        assert(picker.layout().valid_block_offset(p as int, b as int) && !blocked.contains(
            (p, b),
        ));
    }
    assert(picker.layout().valid_block_offset(p as int, req_offset as int));
    assert(!blocked.contains((p, req_offset)));
    assert(req_offset == b);
}

impl PiecePicker {
    pub closed spec fn layout(&self) -> TorrentLayout {
        self.layout
    }

    /// How many swarm peers hold each piece, as reported so far.
    pub closed spec fn availability(&self) -> Seq<usize> {
        self.availability@
    }

    /// Endgame mode activates when fewer than this many blocks remain.
    pub closed spec fn threshold(&self) -> int {
        self.endgame_threshold as int
    }

    pub closed spec fn wf(&self) -> bool {
        &&& self.layout.wf()
        &&& self.availability@.len() == self.layout.pieces
        &&& self.endgame_threshold <= usize::MAX - self.layout.piece_length
    }

    /// Endgame mode: fewer blocks remain overall than the configured
    /// threshold.
    pub open spec fn endgame(&self, local: Seq<bool>) -> bool {
        remaining_blocks(self.layout(), local, self.layout().pieces as int) < self.threshold()
    }

    /// Piece `p` may be requested from this remote peer: the remote holds
    /// it, the local client lacks it, and (outside endgame) some block of
    /// it is not already in flight.
    pub open spec fn candidate(
        &self,
        local: Seq<bool>,
        remote: Seq<bool>,
        in_flight: Set<(usize, usize)>,
        p: int,
    ) -> bool {
        &&& 0 <= p < self.layout().pieces
        &&& remote[p]
        &&& !local[p]
        &&& (self.endgame(local) || has_free_block(self.layout(), p as usize, in_flight))
    }

    pub fn new(layout: TorrentLayout, endgame_threshold: usize) -> (r: PiecePicker)
        requires
            layout.wf(),
            endgame_threshold <= usize::MAX - layout.piece_length,
        ensures
            r.wf(),
            r.layout() == layout,
            r.threshold() == endgame_threshold as int,
            r.availability().len() == layout.pieces,
            forall|p: int| 0 <= p < layout.pieces ==> r.availability()[p] == 0,
    {
        let mut availability: Vec<usize> = Vec::new();
        let mut i: usize = 0;
        while i < layout.pieces
            invariant
                i <= layout.pieces,
                availability@.len() == i,
                forall|j: int| 0 <= j < i ==> availability@[j] == 0,
            decreases layout.pieces - i,
        {
            availability.push(0);
            i = i + 1;
        }
        PiecePicker { layout, availability, endgame_threshold }
    }

    /// A have-message arrived: one more peer holds piece `p`.
    pub fn record_have(&mut self, p: usize)
        requires
            old(self).wf(),
            p < old(self).layout().pieces,
            old(self).availability()[p as int] < usize::MAX,
        ensures
            final(self).wf(),
            final(self).layout() == old(self).layout(),
            final(self).threshold() == old(self).threshold(),
            final(self).availability() == old(self).availability().update(
                p as int,
                (old(self).availability()[p as int] + 1) as usize,
            ),
    {
        let v = self.availability[p];
        self.availability.set(p, v + 1);
    }

    /// A whole remote bitfield arrived: every piece it holds gains one
    /// holder.
    pub fn record_bitfield(&mut self, remote: &Bitfield)
        requires
            old(self).wf(),
            remote@.len() == old(self).layout().pieces,
            forall|p: int| 0 <= p < remote@.len() && remote@[p]
                ==> old(self).availability()[p] < usize::MAX,
        ensures
            final(self).wf(),
            final(self).layout() == old(self).layout(),
            final(self).threshold() == old(self).threshold(),
            final(self).availability().len() == old(self).availability().len(),
            forall|p: int| 0 <= p < remote@.len() ==> final(self).availability()[p]
                == old(self).availability()[p] + if remote@[p] { 1int } else { 0int },
    {
        let n = remote.len();
        let mut i: usize = 0;
        while i < n
            invariant
                i <= n,
                self.wf(),
                n == remote@.len(),
                n == self.layout.pieces,
                self.layout == old(self).layout,
                self.endgame_threshold == old(self).endgame_threshold,
                self.availability@.len() == old(self).availability@.len(),
                forall|p: int| 0 <= p < n && remote@[p]
                    ==> old(self).availability@[p] < usize::MAX,
                forall|p: int| i <= p < n ==> self.availability@[p]
                    == old(self).availability@[p],
                forall|p: int| 0 <= p < i ==> self.availability@[p]
                    == old(self).availability@[p] + if remote@[p] { 1int } else { 0int },
            decreases n - i,
        {
            if remote.get(i) {
                let v = self.availability[i];
                self.availability.set(i, v + 1);
            }
            i = i + 1;
        }
    }

    /// Whether endgame mode is active for this local bitfield.
    pub fn is_endgame(&self, local: &Bitfield) -> (r: bool)
        requires
            self.wf(),
            local@.len() == self.layout().pieces,
        ensures
            r == self.endgame(local@),
    {
        let n = self.layout.pieces;
        let threshold = self.endgame_threshold;
        let mut count: usize = 0;
        let mut p: usize = 0;
        while p < n
            invariant
                p <= n,
                self.wf(),
                n == self.layout.pieces,
                threshold == self.endgame_threshold,
                local@.len() == n,
                count == remaining_blocks(self.layout, local@, p as int),
                count < threshold || threshold == 0,
            decreases n - p,
        {
            if threshold == 0 {
                proof {
                    lemma_remaining_monotone(self.layout, local@, p as int, n as int);
                }
                return false;
            }
            if !local.get(p) {
                let nb = self.layout.num_blocks_x(p);
                if nb >= threshold - count {
                    proof {
                        lemma_remaining_monotone(self.layout, local@, p as int + 1, n as int);
                    }
                    return false;
                }
                count = count + nb;
            }
            p = p + 1;
        }
        count < threshold
    }

    /// The lowest-offset block of piece `p` that is not in flight.
    fn lowest_free_offset(&self, p: usize, in_flight: &InFlightSet) -> (r: Option<usize>)
        requires
            self.wf(),
            p < self.layout().pieces,
        ensures
            r matches Some(off) ==> (has_free_block(self.layout(), p, in_flight@)
                && chosen_offset_ok(self.layout(), p, off, in_flight@)),
            r is None ==> !has_free_block(self.layout(), p, in_flight@),
    {
        let size = self.layout.piece_size_x(p);
        let bs = self.layout.block_size;
        let mut off: usize = 0;
        while off < size
            invariant
                self.wf(),
                p < self.layout.pieces,
                bs == self.layout.block_size,
                size == self.layout.piece_size(p as int),
                1 <= size,
                off <= size,
                off % bs == 0 || off == size,
                forall|o2: usize|
                    self.layout.valid_block_offset(p as int, o2 as int) && o2 < off
                        ==> in_flight@.contains((p, o2)),
            decreases size - off,
        {
            if !in_flight.contains(p, off) {
                proof {
                    assert(self.layout.valid_block_offset(p as int, off as int));
                    assert(has_free_block(self.layout, p, in_flight@)) by {
                        assert(self.layout.valid_block_offset(p as int, off as int)
                            && !in_flight@.contains((p, off)));
                    }
                }
                return Some(off);
            }
            if bs < size - off {
                proof {
                    assert forall|o2: usize|
                        self.layout.valid_block_offset(p as int, o2 as int) && o2 < off + bs
                        implies in_flight@.contains((p, o2)) by {
                        if o2 > off {
                            lemma_next_multiple(off as int, o2 as int, bs as int);
                        }
                    }
                    lemma_step_multiple(off as int, bs as int);
                }
                off = off + bs;
            } else {
                proof {
                    assert forall|o2: usize|
                        self.layout.valid_block_offset(p as int, o2 as int) && o2 < size
                        implies in_flight@.contains((p, o2)) by {
                        if o2 > off {
                            lemma_next_multiple(off as int, o2 as int, bs as int);
                        }
                    }
                }
                off = size;
            }
        }
        proof {
            assert forall|o2: usize| self.layout.valid_block_offset(p as int, o2 as int)
                implies in_flight@.contains((p, o2)) by {
                assert(o2 < self.layout.piece_size(p as int));
                assert(o2 < off);
            }
            assert(!has_free_block(self.layout, p, in_flight@));
        }
        None
    }

    /// The next block to request from the peer with bitfield `remote`:
    /// the rarest eligible piece (ties to the lowest index), and within it
    /// the lowest-offset free block — or, in endgame, a duplicate of an
    /// in-flight block rather than nothing.
    pub fn next_request(&self, local: &Bitfield, remote: &Bitfield, in_flight: &InFlightSet) -> (r:
        Option<BlockRequest>)
        requires
            self.wf(),
            local@.len() == self.layout().pieces,
            remote@.len() == self.layout().pieces,
        ensures
            r matches Some(req) ==> {
                &&& self.candidate(local@, remote@, in_flight@, req.piece as int)
                &&& forall|q: int| self.candidate(local@, remote@, in_flight@, q)
                    ==> (self.availability()[req.piece as int] < self.availability()[q]
                        || (self.availability()[req.piece as int] == self.availability()[q]
                            && req.piece <= q))
                &&& chosen_offset_ok(self.layout(), req.piece, req.offset, in_flight@)
                &&& req.length == self.layout().block_len_at(req.piece as int, req.offset as int)
            },
            r is None ==> forall|q: int| !self.candidate(local@, remote@, in_flight@, q),
    {
        let n = self.layout.pieces;
        let endgame = self.is_endgame(local);
        let mut best: Option<usize> = None;
        let mut p: usize = 0;
        while p < n
            invariant
                p <= n,
                self.wf(),
                n == self.layout.pieces,
                local@.len() == n,
                remote@.len() == n,
                endgame == self.endgame(local@),
                best is None ==> forall|q: int|
                    q < p ==> !self.candidate(local@, remote@, in_flight@, q),
                best matches Some(b) ==> (b < p
                    && self.candidate(local@, remote@, in_flight@, b as int)
                    && forall|q: int| q < p && self.candidate(local@, remote@, in_flight@, q)
                        ==> (self.availability@[b as int] < self.availability@[q]
                            || (self.availability@[b as int] == self.availability@[q] && b <= q))),
            decreases n - p,
        {
            if remote.get(p) && !local.get(p) {
                let eligible = if endgame {
                    true
                } else {
                    self.lowest_free_offset(p, in_flight).is_some()
                };
                if eligible {
                    match best {
                        None => {
                            best = Some(p);
                        },
                        Some(b) => {
                            if self.availability[p] < self.availability[b] {
                                best = Some(p);
                            }
                        },
                    }
                }
            }
            p = p + 1;
        }
        match best {
            None => None,
            Some(b) => {
                let off = match self.lowest_free_offset(b, in_flight) {
                    Some(o) => o,
                    None => 0,
                };
                let len = self.layout.block_len_x(b, off);
                Some(BlockRequest { piece: b, offset: off, length: len })
            },
        }
    }
}

} // verus!
