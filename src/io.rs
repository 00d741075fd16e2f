//! The storage medium under a data file: read at an offset, append, size, sync.
use crate::data::append_bytes;
use crate::errors::Errors;
use vstd::prelude::*;

pub mod mmap;

verus! {

/// A byte-addressable storage medium that grows only at its end.
pub trait IoManager {
    /// The bytes that the medium holds.
    spec fn contents(&self) -> Seq<u8>;

    /// Whether `write` appends (else it always fails with `Unsupported`).
    spec fn accepts_writes(&self) -> bool;

    /// Whether the medium never reports a failure of its own (`IoFailure`).
    spec fn infallible(&self) -> bool;

    /// Fills `buf` with the bytes from `offset` on. Fails with `OutOfBounds`
    /// exactly when the range passes the end of the medium; may otherwise
    /// fail only with `IoFailure`.
    fn read(&self, buf: &mut Vec<u8>, offset: u64) -> (r: Result<usize, Errors>)
        ensures
            final(buf)@.len() == old(buf)@.len(),
            match r {
                Ok(n) => n == old(buf)@.len() && offset + n <= self.contents().len()
                    && final(buf)@ == self.contents().subrange(offset as int, offset + n),
                Err(e) => if offset + old(buf)@.len() > self.contents().len() {
                    e == Errors::OutOfBounds
                } else {
                    e == Errors::IoFailure && !self.infallible()
                },
            },
    ;

    /// Appends `buf` at the end of the medium and gives the number of bytes
    /// written, which is all of them.
    fn write(&mut self, buf: &[u8]) -> (r: Result<usize, Errors>)
        ensures
            final(self).accepts_writes() == old(self).accepts_writes(),
            final(self).infallible() == old(self).infallible(),
            match r {
                Ok(n) => n == buf@.len() && old(self).accepts_writes()
                    && final(self).contents() == old(self).contents() + buf@,
                Err(e) => if old(self).accepts_writes() {
                    e == Errors::IoFailure && !old(self).infallible()
                } else {
                    e == Errors::Unsupported && final(self).contents() == old(self).contents()
                },
            },
    ;

    /// The number of bytes that the medium holds.
    fn size(&self) -> (r: Result<u64, Errors>)
        ensures
            match r {
                Ok(n) => n == self.contents().len(),
                Err(e) => e == Errors::IoFailure && !self.infallible(),
            },
    ;

    /// Forces buffered writes to durable storage.
    fn sync(&mut self) -> (r: Result<(), Errors>)
        ensures
            final(self).contents() == old(self).contents(),
            final(self).accepts_writes() == old(self).accepts_writes(),
            final(self).infallible() == old(self).infallible(),
            r matches Err(e) ==> if old(self).accepts_writes() {
                e == Errors::IoFailure && !old(self).infallible()
            } else {
                e == Errors::Unsupported
            },
    ;
}

#[derive(Clone, Copy, Debug, PartialEq, Eq, Structural)]
pub enum IOType {
    StandardFIO,
    MMap,
}

/// A medium held in memory.
pub struct MemIoManager {
    data: Vec<u8>,
}

impl MemIoManager {
    pub closed spec fn view(&self) -> Seq<u8> {
        self.data@
    }

    /// An empty medium.
    pub fn new() -> (r: Self)
        ensures
            r.view() == Seq::<u8>::empty(),
    {
        MemIoManager { data: Vec::new() }
    }

    /// A medium that holds `data`.
    pub fn from_bytes(data: Vec<u8>) -> (r: Self)
        ensures
            r.view() == data@,
    {
        MemIoManager { data }
    }

    /// The bytes that the medium holds.
    pub fn bytes(&self) -> (r: &[u8])
        ensures
            r@ == self.view(),
    {
        self.data.as_slice()
    }
}

impl IoManager for MemIoManager {
    open spec fn contents(&self) -> Seq<u8> {
        self.view()
    }

    open spec fn accepts_writes(&self) -> bool {
        true
    }

    open spec fn infallible(&self) -> bool {
        true
    }

    fn read(&self, buf: &mut Vec<u8>, offset: u64) -> (r: Result<usize, Errors>) {
        let n = buf.len();
        let len = self.data.len();
        if offset > len as u64 || n > len - offset as usize {
            return Err(Errors::OutOfBounds);
        }
        let start = offset as usize;
        buf.clear();
        append_bytes(buf, &self.data.as_slice()[start..start + n]);
        Ok(n)
    }

    fn write(&mut self, buf: &[u8]) -> (r: Result<usize, Errors>) {
        append_bytes(&mut self.data, buf);
        Ok(buf.len())
    }

    fn size(&self) -> (r: Result<u64, Errors>) {
        Ok(self.data.len() as u64)
    }

    fn sync(&mut self) -> (r: Result<(), Errors>) {
        Ok(())
    }
}

} // verus!
