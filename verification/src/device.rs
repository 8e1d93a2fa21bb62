//! Block devices: the interface the volume reads and writes through, and a
//! verified in-memory implementation of it.

use vstd::prelude::*;

verus! {

/// Failure reported by a block device.
#[derive(Debug, Clone, Copy, PartialEq, Eq)]
pub enum DeviceError {
    /// The requested byte range lies (partly) past the end of the device.
    OutOfRange,
    /// The medium failed to complete the request.
    Io,
}

/// A byte-addressed storage device.
///
/// `contents` is the device's bytes as the library sees them. A read that
/// succeeds returns exactly the requested range, and a write that succeeds
/// replaces exactly the written range; neither changes anything else.
pub trait CFSBlockDevice {
    spec fn contents(&self) -> Seq<u8>;

    /// Device size in bytes.
    fn size(&self) -> (r: u64)
        ensures
            r == self.contents().len(),
    ;

    /// Read `len` bytes starting at byte `offset`.
    fn read(&mut self, offset: u64, len: usize) -> (r: Result<Vec<u8>, DeviceError>)
        ensures
            final(self).contents() == old(self).contents(),
            r matches Ok(v) ==> {
                &&& offset + len <= old(self).contents().len()
                &&& v@ == old(self).contents().subrange(offset as int, offset + len)
            },
    ;

    /// Write `data` starting at byte `offset`.
    fn write(&mut self, offset: u64, data: &[u8]) -> (r: Result<(), DeviceError>)
        ensures
            r is Ok ==> {
                &&& offset + data@.len() <= old(self).contents().len()
                &&& final(self).contents() == written(old(self).contents(), offset as int, data@)
            },
            r is Err ==> final(self).contents() == old(self).contents(),
    ;

    /// Make previous writes durable.
    fn flush(&mut self) -> (r: Result<(), DeviceError>)
        ensures
            final(self).contents() == old(self).contents(),
    ;
}

/// `old` with `data` placed at byte `offset`.
pub open spec fn written(old: Seq<u8>, offset: int, data: Seq<u8>) -> Seq<u8> {
    old.subrange(0, offset) + data + old.subrange(offset + data.len(), old.len() as int)
}

/// Two adjacent writes amount to one write of their concatenation.
pub proof fn lemma_written_concat(c: Seq<u8>, off: int, d1: Seq<u8>, d2: Seq<u8>)
    requires
        0 <= off,
        off + d1.len() + d2.len() <= c.len(),
    ensures
        written(written(c, off, d1), off + d1.len(), d2) == written(c, off, d1 + d2),
{
    assert(written(written(c, off, d1), off + d1.len(), d2) =~= written(c, off, d1 + d2));
}

/// A device held entirely in memory.
pub struct MemBlockDevice {
    data: Vec<u8>,
}

impl MemBlockDevice {
    /// A zero-filled device of `size` bytes.
    pub fn new(size: usize) -> (d: Self)
        ensures
            d.contents() == Seq::new(size as nat, |i: int| 0u8),
    {
        let d = MemBlockDevice { data: vec![0u8; size] };
        assert(d.data@ =~= Seq::new(size as nat, |i: int| 0u8));
        d
    }
}

impl CFSBlockDevice for MemBlockDevice {
    closed spec fn contents(&self) -> Seq<u8> {
        self.data@
    }

    fn size(&self) -> (r: u64) {
        self.data.len() as u64
    }

    /// Succeeds exactly when the range lies within the device.
    fn read(&mut self, offset: u64, len: usize) -> (r: Result<Vec<u8>, DeviceError>)
        ensures
            r is Ok <==> offset + len <= old(self).contents().len(),
            r matches Err(e) ==> e == DeviceError::OutOfRange,
    {
        let n = self.data.len();
        if offset > n as u64 || len > n - offset as usize {
            return Err(DeviceError::OutOfRange);
        }
        let start = offset as usize;
        let mut out: Vec<u8> = Vec::with_capacity(len);
        let mut i: usize = 0;
        while i < len
            invariant
                start + len <= n,
                n == self.data@.len(),
                i <= len,
                out@ == self.data@.subrange(start as int, start + i),
            decreases len - i,
        {
            out.push(self.data[start + i]);
            i = i + 1;
            assert(out@ =~= self.data@.subrange(start as int, start + i));
        }
        Ok(out)
    }

    /// Succeeds exactly when the range lies within the device.
    fn write(&mut self, offset: u64, data: &[u8]) -> (r: Result<(), DeviceError>)
        ensures
            r is Ok <==> offset + data@.len() <= old(self).contents().len(),
            r matches Err(e) ==> e == DeviceError::OutOfRange,
    {
        let n = self.data.len();
        if offset > n as u64 || data.len() > n - offset as usize {
            return Err(DeviceError::OutOfRange);
        }
        let start = offset as usize;
        let ghost before = self.data@;
        let mut i: usize = 0;
        while i < data.len()
            invariant
                start + data@.len() <= n,
                n == before.len(),
                self.data@.len() == n,
                i <= data@.len(),
                forall|k: int| 0 <= k < start ==> self.data@[k] == before[k],
                forall|k: int| 0 <= k < i ==> self.data@[start + k] == data@[k],
                forall|k: int| start + i <= k < n ==> self.data@[k] == before[k],
            decreases data@.len() - i,
        {
            self.data.set(start + i, data[i]);
            i = i + 1;
        }
        assert(self.data@ =~= written(before, start as int, data@));
        Ok(())
    }

    fn flush(&mut self) -> (r: Result<(), DeviceError>) {
        Ok(())
    }
}

} // verus!
