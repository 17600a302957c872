//! Byte-range access to the single contiguous torrent-wide range. Peer
//! connections read blocks they serve and write blocks they receive through
//! this interface only; a failure is reported explicitly, never swallowed.
use vstd::prelude::*;

verus! {

/// Failure of a byte-range read or write, surfaced to the calling peer
/// connection so it can close cleanly.
#[derive(Clone, Copy, PartialEq, Eq, Structural, Debug)]
pub enum FileError {
    Io,
}

/// What a read of `length` bytes at `offset` returns.
pub open spec fn read_model(contents: Seq<u8>, offset: int, length: int) -> Seq<u8> {
    contents.subrange(offset, offset + length)
}

/// The contents after `data` is written at `offset`: the spliced range
/// changes, everything else stays.
pub open spec fn write_model(contents: Seq<u8>, offset: int, data: Seq<u8>) -> Seq<u8> {
    contents.subrange(0, offset) + data + contents.subrange(
        offset + data.len(),
        contents.len() as int,
    )
}

/// Writing `data` at `offset` and then reading `data.len()` bytes back from
/// `offset` yields exactly `data` (round trip), for any in-bounds offset.
pub proof fn lemma_write_read_round_trip(contents: Seq<u8>, offset: int, data: Seq<u8>)
    requires
        0 <= offset,
        offset + data.len() <= contents.len(),
    ensures
        read_model(write_model(contents, offset, data), offset, data.len() as int) == data,
{
    assert(read_model(write_model(contents, offset, data), offset, data.len() as int) =~= data);
}

/// Storage for one contiguous byte range. `read` and `write` either fully
/// complete or report a failure; no partial reads or writes are exposed, and
/// a failed call leaves the contents as they were.
pub trait FileProvider: Sized {
    /// The bytes the provider currently holds, over the whole declared range.
    spec fn contents(&self) -> Seq<u8>;

    fn read(&mut self, offset: usize, length: usize) -> (r: Result<Vec<u8>, FileError>)
        requires
            offset + length <= old(self).contents().len(),
        ensures
            final(self).contents() == old(self).contents(),
            r matches Ok(bytes) ==> bytes@ == read_model(
                old(self).contents(),
                offset as int,
                length as int,
            ),
    ;

    fn write(&mut self, offset: usize, data: Vec<u8>) -> (r: Result<(), FileError>)
        requires
            offset + data@.len() <= old(self).contents().len(),
        ensures
            r matches Ok(u) ==> final(self).contents() == write_model(
                old(self).contents(),
                offset as int,
                data@,
            ),
            r matches Err(e) ==> final(self).contents() == old(self).contents(),
    ;
}

/// In-memory provider: the whole range lives in one buffer. Used as the
/// engine's test double; every in-bounds call succeeds.
pub struct MemoryFileProvider {
    data: Vec<u8>,
}

impl MemoryFileProvider {
    /// A zero-filled range of `total` bytes.
    pub fn new_zeroed(total: usize) -> (r: MemoryFileProvider)
        ensures
            r.contents().len() == total,
            forall|i: int| 0 <= i < total ==> r.contents()[i] == 0u8,
    {
        let mut data: Vec<u8> = Vec::new();
        let mut i: usize = 0;
        while i < total
            invariant
                i <= total,
                data@.len() == i,
                forall|j: int| 0 <= j < i ==> data@[j] == 0u8,
            decreases total - i,
        {
            data.push(0u8);
            i = i + 1;
        }
        MemoryFileProvider { data }
    }
}

impl FileProvider for MemoryFileProvider {
    closed spec fn contents(&self) -> Seq<u8> {
        self.data@
    }

    /// An in-bounds read of the buffer always succeeds.
    fn read(&mut self, offset: usize, length: usize) -> (r: Result<Vec<u8>, FileError>)
        ensures
            r is Ok,
    {
        let n = self.data.len();
        let mut out: Vec<u8> = Vec::new();
        let mut i: usize = 0;
        while i < length
            invariant
                i <= length,
                n == self.data@.len(),
                offset + length <= n,
                out@.len() == i,
                forall|j: int| 0 <= j < i ==> out@[j] == self.data@[offset + j],
            decreases length - i,
        {
            out.push(self.data[offset + i]);
            i = i + 1;
        }
        proof {
            assert(out@ =~= read_model(self.data@, offset as int, length as int));
        }
        Ok(out)
    }

    /// An in-bounds write to the buffer always succeeds.
    fn write(&mut self, offset: usize, data: Vec<u8>) -> (r: Result<(), FileError>)
        ensures
            r is Ok,
    {
        let ghost orig = self.data@;
        let n = self.data.len();
        let mut i: usize = 0;
        while i < data.len()
            invariant
                i <= data@.len(),
                n == self.data@.len(),
                offset + data@.len() <= n,
                self.data@.len() == orig.len(),
                forall|j: int| 0 <= j < orig.len() && !(offset <= j < offset + i)
                    ==> self.data@[j] == orig[j],
                forall|j: int| 0 <= j < i ==> self.data@[offset + j] == data@[j],
            decreases data@.len() - i,
        {
            let b = data[i];
            self.data.set(offset + i, b);
            i = i + 1;
        }
        proof {
            assert(self.data@ =~= write_model(orig, offset as int, data@));
        }
        Ok(())
    }
}

} // verus!
