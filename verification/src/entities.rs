//! Core data types of the transfer engine: the torrent layout, peers,
//! and the event and error variants exchanged between the subsystems.
use vstd::prelude::*;

verus! {

/// Immutable geometry of the transfer, supplied at startup: how many pieces
/// there are, how long each piece is, the total content length, and the
/// size of the blocks that pieces are requested in.
#[derive(Clone, Copy, PartialEq, Eq, Structural, Debug)]
pub struct TorrentLayout {
    pub pieces: usize,
    pub piece_length: usize,
    pub total_length: usize,
    pub block_size: usize,
}

impl TorrentLayout {
    /// A layout is well formed when blocks are non-empty and no longer than a
    /// piece, and the piece count is exactly the number of piece-length
    /// chunks needed to cover the total length (the last piece may be short,
    /// but is never empty).
    pub open spec fn wf(self) -> bool {
        &&& 0 < self.block_size <= self.piece_length
        &&& self.total_length <= self.pieces * self.piece_length
        &&& (self.pieces == 0 ==> self.total_length == 0)
        &&& (self.pieces > 0 ==> (self.pieces - 1) * self.piece_length < self.total_length)
    }

    /// Byte length of piece `p`: full pieces everywhere, with the remainder
    /// in the last piece.
    pub open spec fn piece_size(self, p: int) -> int {
        if p + 1 < self.pieces {
            self.piece_length as int
        } else {
            self.total_length - (self.pieces - 1) * self.piece_length
        }
    }

    /// `off` addresses a block of piece `p`: block-aligned and inside the piece.
    pub open spec fn valid_block_offset(self, p: int, off: int) -> bool {
        &&& 0 <= off < self.piece_size(p)
        &&& off % (self.block_size as int) == 0
    }

    /// Byte length of the block of piece `p` at offset `off`: a full block,
    /// or whatever remains of the piece.
    pub open spec fn block_len_at(self, p: int, off: int) -> int {
        if off + self.block_size <= self.piece_size(p) {
            self.block_size as int
        } else {
            self.piece_size(p) - off
        }
    }

    /// Number of blocks of piece `p` (the piece length rounded up to blocks).
    pub open spec fn num_blocks(self, p: int) -> int {
        let size = self.piece_size(p);
        size / (self.block_size as int) + if size % (self.block_size as int) == 0 {
            0int
        } else {
            1int
        }
    }

    /// Runtime piece size.
    pub fn piece_size_x(&self, p: usize) -> (r: usize)
        requires
            self.wf(),
            p < self.pieces,
        ensures
            r == self.piece_size(p as int),
            1 <= r <= self.piece_length,
    {
        proof {
            lemma_piece_size_bounds(*self, p as int);
        }
        if p + 1 < self.pieces {
            self.piece_length
        } else {
            self.total_length - (self.pieces - 1) * self.piece_length
        }
    }

    /// Runtime block length.
    pub fn block_len_x(&self, p: usize, off: usize) -> (r: usize)
        requires
            self.wf(),
            p < self.pieces,
            self.valid_block_offset(p as int, off as int),
        ensures
            r == self.block_len_at(p as int, off as int),
            1 <= r <= self.block_size,
    {
        let size = self.piece_size_x(p);
        if self.block_size <= size - off {
            self.block_size
        } else {
            size - off
        }
    }

    /// Runtime block count of a piece.
    pub fn num_blocks_x(&self, p: usize) -> (r: usize)
        requires
            self.wf(),
            p < self.pieces,
        ensures
            r == self.num_blocks(p as int),
            1 <= r <= self.piece_length,
    {
        let size = self.piece_size_x(p);
        let q = size / self.block_size;
        let rem = size % self.block_size;
        proof {
            lemma_div_bounds(size as int, self.block_size as int);
        }
        if rem == 0 {
            q
        } else {
            q + 1
        }
    }

    /// Runtime check of `wf`, so that unverified callers can validate a
    /// layout before handing it to the engine.
    pub fn is_valid(&self) -> (r: bool)
        ensures
            r == self.wf(),
    {
        proof {
            lemma_mul_u128_no_overflow(self.pieces as u128, self.piece_length as u128);
        }
        if self.block_size == 0 || self.block_size > self.piece_length {
            return false;
        }
        let full: u128 = (self.pieces as u128) * (self.piece_length as u128);
        if (self.total_length as u128) > full {
            return false;
        }
        if self.pieces == 0 {
            self.total_length == 0
        } else {
            proof {
                lemma_mul_u128_no_overflow((self.pieces - 1) as u128, self.piece_length as u128);
            }
            let prev: u128 = ((self.pieces - 1) as u128) * (self.piece_length as u128);
            prev < self.total_length as u128
        }
    }
}

/// Bounds a product of two values that each fit in 64 bits, so that the
/// product fits in 128 bits.
proof fn lemma_mul_u128_no_overflow(a: u128, b: u128) by (nonlinear_arith)
    requires
        a <= u64::MAX,
        b <= u64::MAX,
    ensures
        a * b < u128::MAX,
{
}

/// Division of a positive length by a positive block size: the quotient is
/// at least one block short of the length unless it divides evenly.
proof fn lemma_div_bounds(size: int, bs: int) by (nonlinear_arith)
    requires
        1 <= size,
        1 <= bs,
    ensures
        0 <= size / bs <= size,
        size % bs != 0 ==> size / bs + 1 <= size,
        size % bs == 0 ==> 1 <= size / bs,
{
}

/// Stepping a block-aligned offset by one block keeps it aligned.
pub proof fn lemma_step_multiple(off: int, bs: int) by (nonlinear_arith)
    requires
        1 <= bs,
        0 <= off,
        off % bs == 0,
    ensures
        (off + bs) % bs == 0,
{
}

/// Two block-aligned offsets differ by at least a whole block.
pub proof fn lemma_next_multiple(off: int, o2: int, bs: int) by (nonlinear_arith)
    requires
        1 <= bs,
        0 <= off,
        off % bs == 0,
        o2 % bs == 0,
        o2 > off,
    ensures
        o2 >= off + bs,
{
}

/// Every piece of a well-formed layout is non-empty and no longer than
/// `piece_length`.
pub proof fn lemma_piece_size_bounds(layout: TorrentLayout, p: int) by (nonlinear_arith)
    requires
        layout.wf(),
        0 <= p < layout.pieces,
    ensures
        1 <= layout.piece_size(p) <= layout.piece_length,
{
}

/// A remote peer as the tracker reports it: a network address and an
/// identifier.
#[derive(Clone, Copy, PartialEq, Eq, Structural, Debug)]
pub struct Peer {
    pub ip: u32,
    pub port: u16,
    pub id: u64,
}

/// Why a peer connection was judged to have broken the wire protocol.
#[derive(Clone, Copy, PartialEq, Eq, Structural, Debug)]
pub enum ViolationReason {
    /// The declared message length does not admit any message.
    MalformedLength,
    /// The message identifier is not one the protocol defines.
    UnknownMessageId,
    /// The payload length does not match what the identifier requires.
    PayloadLengthMismatch,
    /// A field addresses a piece or block outside the layout.
    OutOfRangeField,
}

/// Terminal failure of a single peer connection; never crosses into other
/// connections.
#[derive(Clone, Copy, PartialEq, Eq, Structural, Debug)]
pub enum P2PError {
    HandshakeFailed,
    ProtocolViolation(ViolationReason),
    ConnectionClosed,
    Timeout,
}

/// Events produced by peer connections and by the coordinator's own
/// completion logic, and fanned out to every subsystem.
#[derive(Clone, Copy, PartialEq, Eq, Structural, Debug)]
pub enum InternalEvent {
    PieceCompleted(usize),
    PeerConnected(usize),
    PeerDisconnected(usize, P2PError),
    BlockReceived(usize, usize, usize),
}

/// Commands sent to a peer connection by the coordinator or the choker.
#[derive(Clone, Copy, PartialEq, Eq, Structural, Debug)]
pub enum P2PEvent {
    Choke,
    Unchoke,
    Shutdown,
}

} // verus!
