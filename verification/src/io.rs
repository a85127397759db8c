//! The sequential writer that chunks are appended to.
//!
//! Chunks are appended one after the other; each write returns the offset at
//! which its bytes begin. The bytes are kept in memory; handing them to a file
//! or a socket is left to the caller.

use crate::error::Result;
use vstd::prelude::*;

verus! {

/// An append-only byte sink that reports the offset of each write.
pub struct SeqWriter {
    buffer: Vec<u8>,
}

impl SeqWriter {
    /// The bytes written so far.
    pub closed spec fn written(&self) -> Seq<u8> {
        self.buffer@
    }

    /// Creates an empty writer.
    pub fn new() -> (r: Self)
        ensures
            r.written() == Seq::<u8>::empty(),
    {
        SeqWriter { buffer: Vec::new() }
    }

    /// Appends `buffer` and returns the offset where it begins.
    pub fn write_all(&mut self, buffer: &[u8]) -> (r: Result<u64>)
        ensures
            final(self).written() == old(self).written() + buffer@,
            r matches Ok(off) && off == old(self).written().len(),
    {
        let start_offset = self.buffer.len() as u64;
        self.buffer.extend_from_slice(buffer);
        Ok(start_offset)
    }

    /// Makes the written bytes durable; for the in-memory writer there is nothing to do.
    pub fn flush(&mut self) -> (r: Result<()>)
        ensures
            final(self).written() == old(self).written(),
            r is Ok,
    {
        Ok(())
    }

    /// Returns the number of bytes written so far.
    pub fn current_offset(&self) -> (r: u64)
        ensures
            r == self.written().len(),
    {
        self.buffer.len() as u64
    }

    /// Returns the written bytes.
    pub fn into_bytes(self) -> (r: Vec<u8>)
        ensures
            r@ == self.written(),
    {
        self.buffer
    }
}

} // verus!
