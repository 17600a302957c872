//! The per-peer connection state machine. One instance runs per peer as an
//! independent task; this module holds every decision that task makes, from
//! the connect/handshake phases through the established read and request
//! loops to draining and closing. The surrounding task does the socket and
//! timer work and feeds the outcomes in; a failure here is terminal for
//! this connection only and never crosses into another.
use vstd::prelude::*;
use crate::bitfield::{wire_bit, Bitfield};
use crate::entities::{
    lemma_piece_size_bounds, InternalEvent, P2PError, TorrentLayout, ViolationReason,
};
use crate::file_provider::{read_model, write_model, FileProvider};
use crate::in_flight::InFlightSet;
use crate::piece_picker::{chosen_offset_ok, BlockRequest, PiecePicker};

verus! {

/// Lifecycle of one peer connection.
#[derive(Clone, Copy, PartialEq, Eq, Structural, Debug)]
pub enum ConnState {
    Connecting,
    Handshaking,
    Established,
    Closing,
    Closed,
}

/// What handling one received block led to.
#[derive(Clone, Copy, PartialEq, Eq, Structural, Debug)]
pub enum BlockOutcome {
    /// The message broke the protocol or storage failed; the connection is
    /// closing and `error` says why.
    Rejected,
    /// The block was already held (an endgame duplicate); nothing changed
    /// beyond clearing the in-flight entry.
    Duplicate,
    /// The block was stored; the piece is still incomplete.
    Stored,
    /// The block was stored and completed its piece, which passed its
    /// integrity check.
    Completed,
    /// The block completed its piece, but the piece failed its integrity
    /// check; every recorded block of the piece was discarded so the piece
    /// is fetched again.
    Discarded,
}

/// First byte of the torrent-wide range that piece `p` occupies, plus `off`.
pub open spec fn global_offset(layout: TorrentLayout, p: usize, off: usize) -> int {
    p * layout.piece_length + off
}

/// Every block of piece `p` is in `received`.
pub open spec fn piece_complete(
    layout: TorrentLayout,
    received: Set<(usize, usize)>,
    p: usize,
) -> bool {
    forall|off: usize| layout.valid_block_offset(p as int, off as int) ==> received.contains(
        (p, off),
    )
}

/// A block-range address inside a piece, fit to serve or store.
pub open spec fn range_in_piece(layout: TorrentLayout, p: usize, off: usize, len: usize) -> bool {
    &&& (p as int) < layout.pieces
    &&& 1 <= len
    &&& off + len <= layout.piece_size(p as int)
}

/// A piece-local range, placed in the torrent-wide byte range.
proof fn lemma_global_range(pieces: int, pl: int, total: int, p: int, off: int, len: int)
    by (nonlinear_arith)
    requires
        0 < pl,
        0 <= p < pieces,
        total <= pieces * pl,
        (pieces - 1) * pl < total,
        0 <= off,
        0 <= len,
        off + len <= (if p + 1 < pieces {
            pl
        } else {
            total - (pieces - 1) * pl
        }),
    ensures
        0 <= p * pl,
        p * pl + off + len <= total,
{
}

pub struct PeerConnection {
    pub transfer_idx: usize,
    pub layout: TorrentLayout,
    pub state: ConnState,
    pub local: Bitfield,
    pub remote: Bitfield,
    pub remote_choked_us: bool,
    pub remote_interested: bool,
    pub in_flight: InFlightSet,
    pub received: InFlightSet,
    pub error: Option<P2PError>,
}

impl PeerConnection {
    pub open spec fn wf(&self) -> bool {
        &&& self.layout.wf()
        &&& self.local@.len() == self.layout.pieces
        &&& self.remote@.len() == self.layout.pieces
        &&& self.in_flight.wf()
        &&& self.received.wf()
    }

    /// The fields that never change over a connection's lifetime.
    pub open spec fn same_identity(&self, other: &PeerConnection) -> bool {
        &&& self.transfer_idx == other.transfer_idx
        &&& self.layout == other.layout
    }

    /// A fresh connection for the peer at `transfer_idx`, holding a private
    /// snapshot of local progress; the remote bitfield starts all clear and
    /// the wire starts choked and uninterested.
    pub fn new(transfer_idx: usize, layout: TorrentLayout, local: Bitfield) -> (r: PeerConnection)
        requires
            layout.wf(),
            local@.len() == layout.pieces,
        ensures
            r.wf(),
            r.transfer_idx == transfer_idx,
            r.layout == layout,
            r.state is Connecting,
            r.local@ == local@,
            r.remote@.len() == layout.pieces,
            forall|i: int| 0 <= i < layout.pieces ==> !r.remote@[i],
            r.remote_choked_us,
            !r.remote_interested,
            r.in_flight@ == Set::<(usize, usize)>::empty(),
            r.received@ == Set::<(usize, usize)>::empty(),
            r.error is None,
    {
        PeerConnection {
            transfer_idx,
            layout,
            state: ConnState::Connecting,
            local,
            remote: Bitfield::init(layout.pieces),
            remote_choked_us: true,
            remote_interested: false,
            in_flight: InFlightSet::new(),
            received: InFlightSet::new(),
            error: None,
        }
    }

    /// The transport connect finished: on success the handshake starts, on
    /// failure the connection is closed with `ConnectionClosed`.
    pub fn on_connect(&mut self, ok: bool)
        requires
            old(self).wf(),
            old(self).state is Connecting,
            old(self).error is None,
        ensures
            final(self).wf(),
            old(self).same_identity(final(self)),
            final(self).local@ == old(self).local@,
            final(self).remote@ == old(self).remote@,
            final(self).remote_choked_us == old(self).remote_choked_us,
            final(self).remote_interested == old(self).remote_interested,
            final(self).in_flight@ == old(self).in_flight@,
            final(self).received@ == old(self).received@,
            ok ==> (final(self).state is Handshaking && final(self).error is None),
            !ok ==> (final(self).state is Closed && final(self).error == Some(
                P2PError::ConnectionClosed,
            )),
    {
        if ok {
            self.state = ConnState::Handshaking;
        } else {
            self.state = ConnState::Closed;
            self.error = Some(P2PError::ConnectionClosed);
        }
    }

    /// The handshake exchange finished: `valid` is the outcome of the
    /// protocol-identifier and info-hash check (a timed-out exchange counts
    /// as invalid). Invalid closes the connection with `HandshakeFailed`.
    pub fn on_handshake(&mut self, valid: bool)
        requires
            old(self).wf(),
            old(self).state is Handshaking,
            old(self).error is None,
        ensures
            final(self).wf(),
            old(self).same_identity(final(self)),
            final(self).local@ == old(self).local@,
            final(self).remote@ == old(self).remote@,
            final(self).remote_choked_us == old(self).remote_choked_us,
            final(self).remote_interested == old(self).remote_interested,
            final(self).in_flight@ == old(self).in_flight@,
            final(self).received@ == old(self).received@,
            valid ==> (final(self).state is Established && final(self).error is None),
            !valid ==> (final(self).state is Closed && final(self).error == Some(
                P2PError::HandshakeFailed,
            )),
    {
        if valid {
            self.state = ConnState::Established;
        } else {
            self.state = ConnState::Closed;
            self.error = Some(P2PError::HandshakeFailed);
        }
    }

    /// The remote peer choked or unchoked us.
    pub fn on_choke_msg(&mut self, choked: bool)
        requires
            old(self).wf(),
            old(self).state is Established,
        ensures
            final(self).wf(),
            old(self).same_identity(final(self)),
            final(self).state == old(self).state,
            final(self).error == old(self).error,
            final(self).local@ == old(self).local@,
            final(self).remote@ == old(self).remote@,
            final(self).remote_choked_us == choked,
            final(self).remote_interested == old(self).remote_interested,
            final(self).in_flight@ == old(self).in_flight@,
            final(self).received@ == old(self).received@,
    {
        self.remote_choked_us = choked;
    }

    /// The remote peer declared or withdrew interest.
    pub fn on_interest_msg(&mut self, interested: bool)
        requires
            old(self).wf(),
            old(self).state is Established,
        ensures
            final(self).wf(),
            old(self).same_identity(final(self)),
            final(self).state == old(self).state,
            final(self).error == old(self).error,
            final(self).local@ == old(self).local@,
            final(self).remote@ == old(self).remote@,
            final(self).remote_choked_us == old(self).remote_choked_us,
            final(self).remote_interested == interested,
            final(self).in_flight@ == old(self).in_flight@,
            final(self).received@ == old(self).received@,
    {
        self.remote_interested = interested;
    }

    /// How many bytes a remote bitfield message must carry for this layout.
    pub open spec fn expected_bitfield_len(layout: TorrentLayout) -> int {
        layout.pieces / 8 + if layout.pieces % 8 == 0 {
            0int
        } else {
            1int
        }
    }

    /// A bitfield message arrived: with the exact byte count it replaces the
    /// private remote bitfield; any other length is a protocol violation
    /// that closes the connection.
    pub fn on_bitfield_msg(&mut self, bytes: &Vec<u8>)
        requires
            old(self).wf(),
            old(self).state is Established,
        ensures
            final(self).wf(),
            old(self).same_identity(final(self)),
            final(self).local@ == old(self).local@,
            final(self).remote_choked_us == old(self).remote_choked_us,
            final(self).remote_interested == old(self).remote_interested,
            final(self).in_flight@ == old(self).in_flight@,
            final(self).received@ == old(self).received@,
            bytes@.len() == Self::expected_bitfield_len(old(self).layout) ==> {
                &&& final(self).state is Established
                &&& final(self).error == old(self).error
                &&& final(self).remote@.len() == old(self).layout.pieces
                &&& forall|i: int| 0 <= i < old(self).layout.pieces ==> final(self).remote@[i]
                    == wire_bit(bytes@[i / 8], i % 8)
            },
            bytes@.len() != Self::expected_bitfield_len(old(self).layout) ==> {
                &&& final(self).state is Closing
                &&& final(self).error == Some(P2PError::ProtocolViolation(
                    ViolationReason::PayloadLengthMismatch,
                ))
                &&& final(self).remote@ == old(self).remote@
            },
    {
        let pieces = self.layout.pieces;
        let expected = pieces / 8 + if pieces % 8 == 0 { 0usize } else { 1usize };
        if bytes.len() != expected {
            self.state = ConnState::Closing;
            self.error = Some(P2PError::ProtocolViolation(ViolationReason::PayloadLengthMismatch));
        } else {
            assert(pieces <= bytes@.len() * 8);
            self.remote = Bitfield::from_bytes(bytes, pieces);
        }
    }

    /// A have-message arrived: the remote gained one piece. An index outside
    /// the layout is a protocol violation that closes the connection.
    pub fn on_have_msg(&mut self, piece: usize)
        requires
            old(self).wf(),
            old(self).state is Established,
        ensures
            final(self).wf(),
            old(self).same_identity(final(self)),
            final(self).local@ == old(self).local@,
            final(self).remote_choked_us == old(self).remote_choked_us,
            final(self).remote_interested == old(self).remote_interested,
            final(self).in_flight@ == old(self).in_flight@,
            final(self).received@ == old(self).received@,
            piece < old(self).layout.pieces ==> {
                &&& final(self).state is Established
                &&& final(self).error == old(self).error
                &&& final(self).remote@ == old(self).remote@.update(piece as int, true)
            },
            piece >= old(self).layout.pieces ==> {
                &&& final(self).state is Closing
                &&& final(self).error == Some(P2PError::ProtocolViolation(
                    ViolationReason::OutOfRangeField,
                ))
                &&& final(self).remote@ == old(self).remote@
            },
    {
        if piece < self.layout.pieces {
            self.remote.set_piece(piece);
        } else {
            self.state = ConnState::Closing;
            self.error = Some(P2PError::ProtocolViolation(ViolationReason::OutOfRangeField));
        }
    }

    /// A block request arrived: serve it with a bounded read through the
    /// file provider. A range outside the layout, or for a piece not yet
    /// held locally, is a protocol violation; a storage failure closes the
    /// connection with `ConnectionClosed` so it can report its exit.
    pub fn on_request_msg<F: FileProvider>(
        &mut self,
        storage: &mut F,
        piece: usize,
        offset: usize,
        length: usize,
    ) -> (r: Option<Vec<u8>>)
        requires
            old(self).wf(),
            old(self).state is Established,
            old(storage).contents().len() == old(self).layout.total_length,
        ensures
            final(self).wf(),
            old(self).same_identity(final(self)),
            final(self).local@ == old(self).local@,
            final(self).remote@ == old(self).remote@,
            final(self).remote_choked_us == old(self).remote_choked_us,
            final(self).remote_interested == old(self).remote_interested,
            final(self).in_flight@ == old(self).in_flight@,
            final(self).received@ == old(self).received@,
            final(storage).contents() == old(storage).contents(),
            !(range_in_piece(old(self).layout, piece, offset, length)
                && old(self).local@[piece as int]) ==> {
                &&& r is None
                &&& final(self).state is Closing
                &&& final(self).error == Some(P2PError::ProtocolViolation(
                    ViolationReason::OutOfRangeField,
                ))
            },
            (range_in_piece(old(self).layout, piece, offset, length)
                && old(self).local@[piece as int]) ==> match r {
                Some(data) => {
                    &&& data@ == read_model(
                        old(storage).contents(),
                        global_offset(old(self).layout, piece, offset),
                        length as int,
                    )
                    &&& final(self).state == old(self).state
                    &&& final(self).error == old(self).error
                },
                None => {
                    &&& final(self).state is Closing
                    &&& final(self).error == Some(P2PError::ConnectionClosed)
                },
            },
    {
        let layout = self.layout;
        let valid = piece < layout.pieces && length >= 1 && self.local.get(piece)
            && {
            let size = layout.piece_size_x(piece);
            offset <= size && length <= size - offset
        };
        if !valid {
            self.state = ConnState::Closing;
            self.error = Some(P2PError::ProtocolViolation(ViolationReason::OutOfRangeField));
            return None;
        }
        proof {
            lemma_global_range(
                layout.pieces as int,
                layout.piece_length as int,
                layout.total_length as int,
                piece as int,
                offset as int,
                length as int,
            );
        }
        let base = piece * layout.piece_length;
        match storage.read(base + offset, length) {
            Ok(data) => Some(data),
            Err(e) => {
                self.state = ConnState::Closing;
                self.error = Some(P2PError::ConnectionClosed);
                None
            },
        }
    }

    /// Every block of piece `p` has been received.
    fn all_blocks_received(&self, p: usize) -> (r: bool)
        requires
            self.wf(),
            p < self.layout.pieces,
        ensures
            r == piece_complete(self.layout, self.received@, p),
    {
        let size = self.layout.piece_size_x(p);
        let bs = self.layout.block_size;
        let mut off: usize = 0;
        while off < size
            invariant
                self.wf(),
                p < self.layout.pieces,
                bs == self.layout.block_size,
                size == self.layout.piece_size(p as int),
                1 <= size,
                off <= size,
                off % bs == 0 || off == size,
                forall|o2: usize|
                    self.layout.valid_block_offset(p as int, o2 as int) && o2 < off
                        ==> self.received@.contains((p, o2)),
            decreases size - off,
        {
            if !self.received.contains(p, off) {
                proof {
                    assert(self.layout.valid_block_offset(p as int, off as int));
                }
                return false;
            }
            if bs < size - off {
                proof {
                    assert forall|o2: usize|
                        self.layout.valid_block_offset(p as int, o2 as int) && o2 < off + bs
                        implies self.received@.contains((p, o2)) by {
                        if o2 > off {
                            crate::entities::lemma_next_multiple(off as int, o2 as int, bs as int);
                        }
                    }
                    crate::entities::lemma_step_multiple(off as int, bs as int);
                }
                off = off + bs;
            } else {
                proof {
                    assert forall|o2: usize|
                        self.layout.valid_block_offset(p as int, o2 as int) && o2 < size
                        implies self.received@.contains((p, o2)) by {
                        if o2 > off {
                            crate::entities::lemma_next_multiple(off as int, o2 as int, bs as int);
                        }
                    }
                }
                off = size;
            }
        }
        proof {
            assert forall|o2: usize| self.layout.valid_block_offset(p as int, o2 as int)
                implies self.received@.contains((p, o2)) by {
                assert(o2 < self.layout.piece_size(p as int));
                assert(o2 < off);
            }
        }
        true
    }

    /// A piece message arrived with one block. A block the grammar of the
    /// layout does not admit is a protocol violation; a well-formed block is
    /// written through the file provider at its torrent-wide offset, cleared
    /// from the in-flight set, and recorded. `piece_intact` is the verdict
    /// of the piece's integrity check, computed outside against the
    /// metadata's piece hash (the metadata layer is consumed here only as
    /// the resolved layout); it is consulted only for the block that
    /// completes its piece: an intact piece is marked locally held, a bad
    /// one has all its recorded blocks discarded so they are fetched again.
    pub fn on_piece_msg<F: FileProvider>(
        &mut self,
        storage: &mut F,
        piece: usize,
        offset: usize,
        data: Vec<u8>,
        piece_intact: bool,
    ) -> (r: BlockOutcome)
        requires
            old(self).wf(),
            old(self).state is Established,
            old(storage).contents().len() == old(self).layout.total_length,
        ensures
            final(self).wf(),
            old(self).same_identity(final(self)),
            final(self).remote@ == old(self).remote@,
            final(self).remote_choked_us == old(self).remote_choked_us,
            final(self).remote_interested == old(self).remote_interested,
            final(storage).contents().len() == old(storage).contents().len(),
            !(piece < old(self).layout.pieces && old(self).layout.valid_block_offset(
                piece as int,
                offset as int,
            ) && data@.len() == old(self).layout.block_len_at(piece as int, offset as int)) ==> {
                &&& r is Rejected
                &&& final(self).state is Closing
                &&& final(self).error == Some(P2PError::ProtocolViolation(
                    ViolationReason::OutOfRangeField,
                ))
                &&& final(self).local@ == old(self).local@
                &&& final(self).in_flight@ == old(self).in_flight@
                &&& final(self).received@ == old(self).received@
                &&& final(storage).contents() == old(storage).contents()
            },
            (piece < old(self).layout.pieces && old(self).layout.valid_block_offset(
                piece as int,
                offset as int,
            ) && data@.len() == old(self).layout.block_len_at(piece as int, offset as int)) ==> {
                if old(self).received@.contains((piece, offset)) {
                    &&& r is Duplicate
                    &&& final(self).state == old(self).state
                    &&& final(self).error == old(self).error
                    &&& final(self).local@ == old(self).local@
                    &&& final(self).in_flight@ == old(self).in_flight@.remove((piece, offset))
                    &&& final(self).received@ == old(self).received@
                    &&& final(storage).contents() == old(storage).contents()
                } else {
                    match r {
                        BlockOutcome::Rejected => {
                            &&& final(self).state is Closing
                            &&& final(self).error == Some(P2PError::ConnectionClosed)
                            &&& final(self).local@ == old(self).local@
                            &&& final(self).in_flight@ == old(self).in_flight@
                            &&& final(self).received@ == old(self).received@
                            &&& final(storage).contents() == old(storage).contents()
                        },
                        BlockOutcome::Duplicate => false,
                        BlockOutcome::Stored => {
                            &&& final(self).state == old(self).state
                            &&& final(self).error == old(self).error
                            &&& final(self).local@ == old(self).local@
                            &&& final(self).in_flight@ == old(self).in_flight@.remove(
                                (piece, offset),
                            )
                            &&& final(self).received@ == old(self).received@.insert(
                                (piece, offset),
                            )
                            &&& !piece_complete(old(self).layout, final(self).received@, piece)
                            &&& final(storage).contents() == write_model(
                                old(storage).contents(),
                                global_offset(old(self).layout, piece, offset),
                                data@,
                            )
                        },
                        BlockOutcome::Completed => {
                            &&& piece_intact
                            &&& final(self).state == old(self).state
                            &&& final(self).error == old(self).error
                            &&& final(self).local@ == old(self).local@.update(piece as int, true)
                            &&& final(self).in_flight@ == old(self).in_flight@.remove(
                                (piece, offset),
                            )
                            &&& final(self).received@ == old(self).received@.insert(
                                (piece, offset),
                            )
                            &&& piece_complete(old(self).layout, final(self).received@, piece)
                            &&& final(storage).contents() == write_model(
                                old(storage).contents(),
                                global_offset(old(self).layout, piece, offset),
                                data@,
                            )
                        },
                        BlockOutcome::Discarded => {
                            &&& !piece_intact
                            &&& final(self).state == old(self).state
                            &&& final(self).error == old(self).error
                            &&& final(self).local@ == old(self).local@
                            &&& final(self).in_flight@ == old(self).in_flight@.remove(
                                (piece, offset),
                            )
                            &&& piece_complete(
                                old(self).layout,
                                old(self).received@.insert((piece, offset)),
                                piece,
                            )
                            &&& (forall|x: (usize, usize)| final(self).received@.contains(x)
                                <==> (old(self).received@.insert((piece, offset)).contains(x)
                                    && x.0 != piece))
                            &&& final(storage).contents() == write_model(
                                old(storage).contents(),
                                global_offset(old(self).layout, piece, offset),
                                data@,
                            )
                        },
                    }
                }
            },
    {
        let layout = self.layout;
        let valid = piece < layout.pieces
            && {
            let size = layout.piece_size_x(piece);
            offset < size && offset % layout.block_size == 0 && data.len() == layout.block_len_x(
                piece,
                offset,
            )
        };
        if !valid {
            self.state = ConnState::Closing;
            self.error = Some(P2PError::ProtocolViolation(ViolationReason::OutOfRangeField));
            return BlockOutcome::Rejected;
        }
        if self.received.contains(piece, offset) {
            self.in_flight.remove(piece, offset);
            return BlockOutcome::Duplicate;
        }
        proof {
            lemma_piece_size_bounds(layout, piece as int);
            lemma_global_range(
                layout.pieces as int,
                layout.piece_length as int,
                layout.total_length as int,
                piece as int,
                offset as int,
                data@.len() as int,
            );
        }
        let base = piece * layout.piece_length;
        match storage.write(base + offset, data) {
            Ok(u) => {},
            Err(e) => {
                self.state = ConnState::Closing;
                self.error = Some(P2PError::ConnectionClosed);
                return BlockOutcome::Rejected;
            },
        }
        self.in_flight.remove(piece, offset);
        self.received.insert(piece, offset);
        if self.all_blocks_received(piece) {
            if piece_intact {
                self.local.set_piece(piece);
                BlockOutcome::Completed
            } else {
                self.received.remove_piece(piece);
                BlockOutcome::Discarded
            }
        } else {
            BlockOutcome::Stored
        }
    }

    /// A shutdown command is advisory: an established connection drains its
    /// in-flight work first, one not yet established just closes, and one
    /// already closing or closed is left alone.
    pub fn on_shutdown_cmd(&mut self)
        requires
            old(self).wf(),
        ensures
            final(self).wf(),
            old(self).same_identity(final(self)),
            final(self).local@ == old(self).local@,
            final(self).remote@ == old(self).remote@,
            final(self).remote_choked_us == old(self).remote_choked_us,
            final(self).remote_interested == old(self).remote_interested,
            final(self).in_flight@ == old(self).in_flight@,
            final(self).received@ == old(self).received@,
            final(self).error == old(self).error,
            old(self).state is Established ==> final(self).state is Closing,
            (old(self).state is Connecting || old(self).state is Handshaking)
                ==> final(self).state is Closed,
            (old(self).state is Closing || old(self).state is Closed)
                ==> final(self).state == old(self).state,
    {
        match self.state {
            ConnState::Established => {
                self.state = ConnState::Closing;
            },
            ConnState::Connecting | ConnState::Handshaking => {
                self.state = ConnState::Closed;
            },
            ConnState::Closing | ConnState::Closed => {},
        }
    }

    /// The remote peer closed the socket: drain and close.
    pub fn on_remote_closed(&mut self)
        requires
            old(self).wf(),
            old(self).state is Established,
        ensures
            final(self).wf(),
            old(self).same_identity(final(self)),
            final(self).local@ == old(self).local@,
            final(self).remote@ == old(self).remote@,
            final(self).remote_choked_us == old(self).remote_choked_us,
            final(self).remote_interested == old(self).remote_interested,
            final(self).in_flight@ == old(self).in_flight@,
            final(self).received@ == old(self).received@,
            final(self).state is Closing,
            final(self).error == Some(P2PError::ConnectionClosed),
    {
        self.state = ConnState::Closing;
        self.error = Some(P2PError::ConnectionClosed);
    }

    /// A frame the wire grammar refuses arrived: always a protocol
    /// violation, and it always closes this connection — no partial
    /// tolerance, and no other connection is affected.
    pub fn on_malformed(&mut self, reason: ViolationReason)
        requires
            old(self).wf(),
            old(self).state is Established,
        ensures
            final(self).wf(),
            old(self).same_identity(final(self)),
            final(self).local@ == old(self).local@,
            final(self).remote@ == old(self).remote@,
            final(self).remote_choked_us == old(self).remote_choked_us,
            final(self).remote_interested == old(self).remote_interested,
            final(self).in_flight@ == old(self).in_flight@,
            final(self).received@ == old(self).received@,
            final(self).state is Closing,
            final(self).error == Some(P2PError::ProtocolViolation(reason)),
    {
        self.state = ConnState::Closing;
        self.error = Some(P2PError::ProtocolViolation(reason));
    }

    /// In-flight work has drained (or timed out): the connection is closed.
    pub fn on_drained(&mut self)
        requires
            old(self).wf(),
            old(self).state is Closing,
        ensures
            final(self).wf(),
            old(self).same_identity(final(self)),
            final(self).local@ == old(self).local@,
            final(self).remote@ == old(self).remote@,
            final(self).remote_choked_us == old(self).remote_choked_us,
            final(self).remote_interested == old(self).remote_interested,
            final(self).in_flight@ == old(self).in_flight@,
            final(self).received@ == old(self).received@,
            final(self).state is Closed,
            final(self).error == old(self).error,
    {
        self.state = ConnState::Closed;
    }

    /// The event this connection's exit contributes to the stream: a
    /// `PeerDisconnected` carrying the terminal error, or nothing for a
    /// clean shutdown.
    pub fn close_event(&self) -> (r: Option<InternalEvent>)
        requires
            self.state is Closed,
        ensures
            self.error matches Some(e) ==> r == Some(
                InternalEvent::PeerDisconnected(self.transfer_idx, e),
            ),
            self.error is None ==> r is None,
    {
        match self.error {
            Some(e) => Some(InternalEvent::PeerDisconnected(self.transfer_idx, e)),
            None => None,
        }
    }

    /// One step of the request loop: while the remote is not choking us, ask
    /// the picker for the next block and track it as in flight. The picker
    /// sees the union of the in-flight and received sets, so the piece
    /// picked is never one the local snapshot already holds, and the block
    /// picked is never one already requested or already received (outside
    /// endgame).
    pub fn pick_request(&mut self, picker: &PiecePicker) -> (r: Option<BlockRequest>)
        requires
            old(self).wf(),
            old(self).state is Established,
            !old(self).remote_choked_us,
            picker.wf(),
            picker.layout() == old(self).layout,
        ensures
            final(self).wf(),
            old(self).same_identity(final(self)),
            final(self).state == old(self).state,
            final(self).error == old(self).error,
            final(self).local@ == old(self).local@,
            final(self).remote@ == old(self).remote@,
            final(self).remote_choked_us == old(self).remote_choked_us,
            final(self).remote_interested == old(self).remote_interested,
            final(self).received@ == old(self).received@,
            r matches Some(req) ==> {
                &&& picker.candidate(
                    old(self).local@,
                    old(self).remote@,
                    old(self).in_flight@.union(old(self).received@),
                    req.piece as int,
                )
                &&& !old(self).local@[req.piece as int]
                &&& old(self).remote@[req.piece as int]
                &&& chosen_offset_ok(
                    old(self).layout,
                    req.piece,
                    req.offset,
                    old(self).in_flight@.union(old(self).received@),
                )
                &&& req.length == old(self).layout.block_len_at(req.piece as int, req.offset as int)
                &&& final(self).in_flight@ == old(self).in_flight@.insert((req.piece, req.offset))
            },
            r is None ==> {
                &&& final(self).in_flight@ == old(self).in_flight@
                &&& forall|q: int| !picker.candidate(
                    old(self).local@,
                    old(self).remote@,
                    old(self).in_flight@.union(old(self).received@),
                    q,
                )
            },
    {
        let blocked = self.in_flight.union_with(&self.received);
        match picker.next_request(&self.local, &self.remote, &blocked) {
            Some(req) => {
                self.in_flight.insert(req.piece, req.offset);
                Some(req)
            },
            None => None,
        }
    }

    /// A fanned-out event reached this connection. A piece another task
    /// completed updates the private snapshot of local progress; a block
    /// another connection received cancels our own duplicate request for it
    /// (endgame), and the returned pair is the cancel to send.
    pub fn on_peer_event(&mut self, ev: InternalEvent) -> (cancel: Option<(usize, usize)>)
        requires
            old(self).wf(),
        ensures
            final(self).wf(),
            old(self).same_identity(final(self)),
            final(self).state == old(self).state,
            final(self).error == old(self).error,
            final(self).remote@ == old(self).remote@,
            final(self).remote_choked_us == old(self).remote_choked_us,
            final(self).remote_interested == old(self).remote_interested,
            final(self).received@ == old(self).received@,
            ev matches InternalEvent::PieceCompleted(p) ==> {
                &&& final(self).in_flight@ == old(self).in_flight@
                &&& cancel is None
                &&& (p < old(self).layout.pieces
                    ==> final(self).local@ == old(self).local@.update(p as int, true))
                &&& (p >= old(self).layout.pieces ==> final(self).local@ == old(self).local@)
            },
            ev matches InternalEvent::BlockReceived(idx, p, off) ==> {
                &&& final(self).local@ == old(self).local@
                &&& if idx != old(self).transfer_idx && old(self).in_flight@.contains((p, off)) {
                    &&& final(self).in_flight@ == old(self).in_flight@.remove((p, off))
                    &&& cancel == Some((p, off))
                } else {
                    &&& final(self).in_flight@ == old(self).in_flight@
                    &&& cancel is None
                }
            },
            (ev matches InternalEvent::PeerConnected(_) || ev
                matches InternalEvent::PeerDisconnected(_, _)) ==> {
                &&& final(self).local@ == old(self).local@
                &&& final(self).in_flight@ == old(self).in_flight@
                &&& cancel is None
            },
    {
        match ev {
            InternalEvent::PieceCompleted(p) => {
                if p < self.layout.pieces {
                    self.local.set_piece(p);
                }
                None
            },
            InternalEvent::BlockReceived(idx, p, off) => {
                if idx != self.transfer_idx && self.in_flight.contains(p, off) {
                    self.in_flight.remove(p, off);
                    Some((p, off))
                } else {
                    None
                }
            },
            InternalEvent::PeerConnected(_) => None,
            InternalEvent::PeerDisconnected(_, _) => None,
        }
    }
}

} // verus!
