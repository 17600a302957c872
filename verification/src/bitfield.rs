//! Fixed-size piece-availability bitmap: bit `i` is set exactly when piece
//! `i` is fully held. The length is fixed at construction and never changes.
use vstd::prelude::*;

verus! {

pub struct Bitfield {
    bits: Vec<bool>,
}

impl View for Bitfield {
    type V = Seq<bool>;

    closed spec fn view(&self) -> Seq<bool> {
        self.bits@
    }
}

/// The bit of `byte` that the wire encoding assigns to position `k` of that
/// byte: the most significant bit comes first.
pub open spec fn wire_bit(byte: u8, k: int) -> bool {
    ((byte >> ((7 - k) as u8)) & 1u8) == 1u8
}

impl Bitfield {
    /// A freshly initialized local bitfield: length `n`, all bits clear.
    pub fn init(n: usize) -> (r: Bitfield)
        ensures
            r@.len() == n,
            forall|i: int| 0 <= i < n ==> !r@[i],
    {
        let mut bits: Vec<bool> = Vec::new();
        let mut i: usize = 0;
        while i < n
            invariant
                i <= n,
                bits@.len() == i,
                forall|j: int| 0 <= j < i ==> !bits@[j],
            decreases n - i,
        {
            bits.push(false);
            i = i + 1;
        }
        Bitfield { bits }
    }

    /// A remote peer's bitfield, decoded from the wire bytes: piece `i` is
    /// held exactly when bit `i % 8` (most significant first) of byte `i / 8`
    /// is set.
    pub fn from_bytes(bytes: &Vec<u8>, n: usize) -> (r: Bitfield)
        requires
            n <= bytes@.len() * 8,
        ensures
            r@.len() == n,
            forall|i: int| 0 <= i < n ==> r@[i] == wire_bit(bytes@[i / 8], i % 8),
    {
        let mut bits: Vec<bool> = Vec::new();
        let mut i: usize = 0;
        while i < n
            invariant
                i <= n,
                n <= bytes@.len() * 8,
                bits@.len() == i,
                forall|j: int| 0 <= j < i ==> bits@[j] == wire_bit(bytes@[j / 8], j % 8),
            decreases n - i,
        {
            assert(i / 8 < bytes@.len()) by (nonlinear_arith)
                requires i < n, n <= bytes@.len() * 8;
            let byte = bytes[i / 8];
            let shift: u8 = (7 - (i % 8)) as u8;
            let b = ((byte >> shift) & 1u8) == 1u8;
            bits.push(b);
            i = i + 1;
        }
        Bitfield { bits }
    }

    /// Number of pieces the bitfield tracks.
    pub fn len(&self) -> (r: usize)
        ensures
            r == self@.len(),
    {
        self.bits.len()
    }

    /// Whether piece `i` is held.
    pub fn get(&self, i: usize) -> (r: bool)
        requires
            i < self@.len(),
        ensures
            r == self@[i as int],
    {
        self.bits[i]
    }

    /// Record that piece `i` is now fully held. Only sets a bit; the length
    /// never changes.
    pub fn set_piece(&mut self, i: usize)
        requires
            i < old(self)@.len(),
        ensures
            final(self)@ == old(self)@.update(i as int, true),
    {
        self.bits.set(i, true);
    }
}

impl Clone for Bitfield {
    /// A private copy with the same bits, handed to newly spawned peer
    /// connections as a snapshot of local progress.
    fn clone(&self) -> (r: Bitfield)
        ensures
            r@ == self@,
    {
        let mut bits: Vec<bool> = Vec::new();
        let mut i: usize = 0;
        while i < self.bits.len()
            invariant
                i <= self.bits@.len(),
                bits@.len() == i,
                forall|j: int| 0 <= j < i ==> bits@[j] == self.bits@[j],
            decreases self.bits@.len() - i,
        {
            bits.push(self.bits[i]);
            i = i + 1;
        }
        proof {
            assert(bits@ =~= self.bits@);
        }
        Bitfield { bits }
    }
}

} // verus!
