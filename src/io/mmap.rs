//! A read-only medium over a memory map of a sealed file.
use crate::data::append_bytes;
use crate::errors::Errors;
use crate::io::IoManager;
use memmap2::Mmap;
use vstd::prelude::*;

verus! {

#[verifier::external_type_specification]
#[verifier::external_body]
pub struct ExMmap(memmap2::Mmap);

/// The bytes that a read-only map shows. The map's constructors are `unsafe`
/// on the condition that the file is not changed while it is mapped, so these
/// bytes are fixed for the map's life.
pub uninterp spec fn mapped_bytes(m: Mmap) -> Seq<u8>;

/// Relies on memmap2's `Deref<Target = [u8]>` for `Mmap`: the slice's length
/// is the number of mapped bytes.
#[verifier::external_body]
fn mapped_len(m: &Mmap) -> (r: usize)
    ensures
        r == mapped_bytes(*m).len(),
{
    m.len()
}

/// Relies on memmap2's `Deref<Target = [u8]>` for `Mmap`: a copy of the mapped
/// bytes from `start` to `end`.
#[verifier::external_body]
fn mapped_range(m: &Mmap, start: usize, end: usize) -> (r: Vec<u8>)
    requires
        start <= end <= mapped_bytes(*m).len(),
    ensures
        r@ == mapped_bytes(*m).subrange(start as int, end as int),
{
    m[start..end].to_vec()
}

pub struct MMapIOManager {
    mmap: Mmap,
}

impl MMapIOManager {
    /// A medium over an existing map.
    pub fn from_map(mmap: Mmap) -> (r: Self)
        ensures
            r.contents() == mapped_bytes(mmap),
    {
        MMapIOManager { mmap }
    }
}

impl IoManager for MMapIOManager {
    closed spec fn contents(&self) -> Seq<u8> {
        mapped_bytes(self.mmap)
    }

    open spec fn accepts_writes(&self) -> bool {
        false
    }

    open spec fn infallible(&self) -> bool {
        true
    }

    fn read(&self, buf: &mut Vec<u8>, offset: u64) -> (r: Result<usize, Errors>) {
        let n = buf.len();
        let len = mapped_len(&self.mmap);
        if offset > len as u64 || n > len - offset as usize {
            return Err(Errors::OutOfBounds);
        }
        let start = offset as usize;
        let data = mapped_range(&self.mmap, start, start + n);
        buf.clear();
        append_bytes(buf, data.as_slice());
        Ok(n)
    }

    fn write(&mut self, buf: &[u8]) -> (r: Result<usize, Errors>) {
        Err(Errors::Unsupported)
    }

    fn size(&self) -> (r: Result<u64, Errors>) {
        Ok(mapped_len(&self.mmap) as u64)
    }

    fn sync(&mut self) -> (r: Result<(), Errors>) {
        Err(Errors::Unsupported)
    }
}

} // verus!
