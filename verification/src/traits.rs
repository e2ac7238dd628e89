//! What a memory back-end must offer: reading, writing, scanning.

use vstd::prelude::*;
use vstd::string::*;
use crate::errors::LimeError;
use crate::region::RegionView;

verus! {

/// A record of reads with one more read, of `size` bytes at `addr`.
pub open spec fn with_read(record: Option<Seq<(u64, usize)>>, addr: u64, size: usize) -> Option<
    Seq<(u64, usize)>,
> {
    match record {
        Some(reads) => Some(reads.push((addr, size))),
        None => None,
    }
}

/// A source of bytes at virtual addresses.
pub trait ReadProcessMemory {
    /// The byte that a read at `addr` is known to return, where the reader
    /// vouches for one. A reader over memory that may change or vanish under
    /// it vouches for none, which is the default, and the contract below then
    /// asks nothing of it.
    open spec fn known_byte(&self, addr: u64) -> Option<u8> {
        None
    }

    /// The memory map that the reader holds its reads against, where it
    /// holds one: by default it holds none.
    open spec fn layout(&self) -> Seq<RegionView> {
        Seq::empty()
    }

    /// Whether the reader vouches that a read of the byte at `addr` fails. By
    /// default it vouches for no failure.
    open spec fn refused(&self, addr: u64) -> bool {
        false
    }

    /// The reads that the reader was asked for so far, each by its address
    /// and its size, where the reader keeps such a record: by default it keeps
    /// none.
    open spec fn reads(&self) -> Option<Seq<(u64, usize)>> {
        None
    }

    /// Reads the `size` bytes of a value at `addr`.
    ///
    /// Reading changes neither what the reader vouches for nor its memory
    /// map. A read of one byte that the reader vouches for gives that byte,
    /// and one that it vouches to fail fails. A reader that keeps a record of
    /// its reads adds this one to it.
    fn read_value(&mut self, addr: u64, size: usize) -> (value: Result<Vec<u8>, LimeError>)
        ensures
            forall|a: u64| final(self).refused(a) == old(self).refused(a),
            size == 1 && old(self).refused(addr) ==> value is Err,
            final(self).reads() == with_read(old(self).reads(), addr, size),
            forall|a: u64| final(self).known_byte(a) == old(self).known_byte(a),
            final(self).layout() == old(self).layout(),
            size == 1 && old(self).known_byte(addr) is Some ==> value is Ok && value->Ok_0@
                == seq![old(self).known_byte(addr)->0],
    ;
}

/// One request to a stream, with the stream's answer.
pub ghost enum Asked {
    /// To move to this address; with the stream's words where it refused.
    Seek(u64, Option<Seq<char>>),
    /// To read this many bytes; with the bytes, or the stream's words where
    /// it refused.
    Read(usize, Result<Seq<u8>, Seq<char>>),
    /// To write these bytes; with the stream's words where it refused.
    Write(Seq<u8>, Option<Seq<char>>),
}

/// The words of a refusal, if the stream refused.
pub open spec fn refusal_of(done: Result<(), String>) -> Option<Seq<char>> {
    match done {
        Ok(()) => None,
        Err(cause) => Some(cause@),
    }
}

/// The answer to a read as plain values.
pub open spec fn answer_of(got: Result<Vec<u8>, String>) -> Result<Seq<u8>, Seq<char>> {
    match got {
        Ok(bytes) => Ok(bytes@),
        Err(cause) => Err(cause@),
    }
}

/// A seekable stream of bytes, such as the memory file of a process. It keeps
/// one position: a read or a write starts where the last seek left it.
pub trait MemoryStream {
    /// What the stream has been asked so far, and what it answered, where
    /// the stream keeps such a record. By default it keeps none, and the
    /// contracts below then ask nothing of it.
    open spec fn asked(&self) -> Option<Seq<Asked>> {
        None
    }

    /// The bytes that the stream vouches for, by address, where it vouches
    /// for any: such a stream moves wherever it is asked to, and a read of a
    /// byte that it vouches for gives that byte. By default a stream vouches
    /// for none, and the contracts below then ask nothing of it.
    open spec fn held(&self) -> Option<Map<u64, u8>> {
        None
    }

    /// Where a stream that vouches for bytes stands.
    open spec fn place(&self) -> u64 {
        0
    }

    /// Moves the position to `addr`, or says why it cannot. A stream that
    /// keeps a record adds this request and its answer to it. What the stream
    /// vouches for stays, and a stream that vouches moves to `addr`.
    fn seek_to(&mut self, addr: u64) -> (done: Result<(), String>)
        ensures
            final(self).held() == old(self).held(),
            old(self).held() is Some ==> done is Ok && final(self).place() == addr,
            old(self).asked() is Some ==> final(self).asked() == Some(
                old(self).asked()->0.push(Asked::Seek(addr, refusal_of(done))),
            ),
    ;

    /// Reads `size` bytes at the position, or says why it cannot. A stream
    /// that keeps a record adds this request and its answer to it. What the
    /// stream vouches for stays, and one byte that it vouches for is read as
    /// that byte.
    fn read_exact(&mut self, size: usize) -> (bytes: Result<Vec<u8>, String>)
        ensures
            final(self).held() == old(self).held(),
            size == 1 && old(self).held() is Some && old(self).held()->0.contains_key(
                old(self).place(),
            ) ==> bytes is Ok && bytes->Ok_0@ == seq![old(self).held()->0[old(self).place()]],
            old(self).asked() is Some ==> final(self).asked() == Some(
                old(self).asked()->0.push(Asked::Read(size, answer_of(bytes))),
            ),
    ;

    /// Writes `bytes` at the position, or says why it cannot. A stream that
    /// keeps a record adds this request and its answer to it.
    fn write_all(&mut self, bytes: &[u8]) -> (done: Result<(), String>)
        ensures
            old(self).asked() is Some ==> final(self).asked() == Some(
                old(self).asked()->0.push(Asked::Write(bytes@, refusal_of(done))),
            ),
    ;
}

/// A sink for bytes at virtual addresses.
pub trait WriteProcessMemory {
    /// Writes the bytes of a value at `addr`.
    fn write_value(&mut self, addr: u64, value: &[u8]) -> (done: Result<(), LimeError>);
}

/// A back-end that can search all it can read.
pub trait ProcessMemoryPatternScan {
    /// The addresses at which the pattern text matches, or `None` where there
    /// are none.
    fn scan_for_pattern(&mut self, pattern: &str) -> (found: Option<Vec<u64>>);
}

} // verus!
