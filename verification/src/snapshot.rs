//! Bytes held in memory: a region of an address space as it was when it was
//! copied, as a reader and as a stream.

use vstd::prelude::*;
use vstd::string::*;
use vstd::slice::{slice_subrange, slice_to_vec};
use crate::errors::{LimeError, RPMError};
use crate::traits::{answer_of, refusal_of, Asked, MemoryStream, ReadProcessMemory};

verus! {

/// Bytes that lie from the address `base` on.
pub struct MemorySnapshot {
    pub base: u64,
    pub bytes: Vec<u8>,
}

impl MemorySnapshot {
    /// Whether the `size` bytes at `addr` all lie in the snapshot.
    pub open spec fn holds(&self, addr: u64, size: usize) -> bool {
        self.base <= addr && addr + size <= self.base + self.bytes@.len()
    }

    /// A snapshot of `bytes` at `base`.
    pub fn new(base: u64, bytes: Vec<u8>) -> (snapshot: Self)
        ensures
            snapshot.base == base,
            snapshot.bytes@ == bytes@,
    {
        MemorySnapshot { base, bytes }
    }
}

impl ReadProcessMemory for MemorySnapshot {
    /// The snapshot vouches for each of its bytes.
    open spec fn known_byte(&self, addr: u64) -> Option<u8> {
        if self.base <= addr < self.base + self.bytes@.len() {
            Some(self.bytes@[addr - self.base])
        } else {
            None
        }
    }

    /// The snapshot vouches that a read outside it fails.
    open spec fn refused(&self, addr: u64) -> bool {
        !(self.base <= addr < self.base + self.bytes@.len())
    }

    /// The `size` bytes at `addr` where the snapshot holds them all, else a
    /// failed read. The snapshot stays as it is.
    fn read_value(&mut self, addr: u64, size: usize) -> (value: Result<Vec<u8>, LimeError>)
        ensures
            final(self).base == old(self).base,
            final(self).bytes@ == old(self).bytes@,
            match value {
                Ok(v) => old(self).holds(addr, size) && v@ == old(self).bytes@.subrange(
                    addr - old(self).base,
                    addr - old(self).base + size,
                ),
                Err(LimeError::Read(RPMError::FailedToRead(_))) => !old(self).holds(addr, size),
                Err(_) => false,
            },
    {
        let n: usize = self.bytes.len();
        if addr < self.base || addr - self.base > n as u64 || size as u64 > n as u64 - (addr
            - self.base) {
            return Err(
                LimeError::Read(RPMError::FailedToRead(String::from_str("outside the snapshot"))),
            );
        }
        let from: usize = (addr - self.base) as usize;
        let value = slice_to_vec(slice_subrange(self.bytes.as_slice(), from, from + size));
        proof {
            if size == 1 {
                assert(value@ =~= seq![self.bytes@[addr - self.base]]);
            }
        }
        Ok(value)
    }
}

/// A stream over a snapshot. It keeps a record of what it was asked.
pub struct SnapshotStream {
    pub snapshot: MemorySnapshot,
    pub position: u64,
    pub record: Ghost<Seq<Asked>>,
}

impl SnapshotStream {
    /// A stream over `snapshot`, at address zero, that was asked nothing yet.
    pub fn new(snapshot: MemorySnapshot) -> (stream: Self)
        ensures
            stream.snapshot == snapshot,
            stream.position == 0,
            stream.asked() == Some(Seq::<Asked>::empty()),
    {
        SnapshotStream { snapshot, position: 0, record: Ghost(Seq::empty()) }
    }

    /// Whether the `size` bytes at the position all lie in the snapshot.
    fn in_reach(&self, size: usize) -> (inside: bool)
        ensures
            inside == self.snapshot.holds(self.position, size),
    {
        let n: usize = self.snapshot.bytes.len();
        self.position >= self.snapshot.base && self.position - self.snapshot.base <= n as u64
            && size as u64 <= n as u64 - (self.position - self.snapshot.base)
    }
}

impl MemoryStream for SnapshotStream {
    /// The stream keeps its record.
    open spec fn asked(&self) -> Option<Seq<Asked>> {
        Some(self.record@)
    }

    /// The stream vouches for each byte of its snapshot.
    open spec fn held(&self) -> Option<Map<u64, u8>> {
        Some(
            Map::new(
                |a: u64| self.snapshot.base <= a < self.snapshot.base + self.snapshot.bytes@.len(),
                |a: u64| self.snapshot.bytes@[a - self.snapshot.base],
            ),
        )
    }

    /// The stream stands at its position.
    open spec fn place(&self) -> u64 {
        self.position
    }

    /// Moves to `addr`; the stream moves anywhere and leaves the bytes as
    /// they are.
    fn seek_to(&mut self, addr: u64) -> (done: Result<(), String>)
        ensures
            done is Ok,
            final(self).position == addr,
            final(self).snapshot == old(self).snapshot,
    {
        self.position = addr;
        self.record = Ghost(self.record@.push(Asked::Seek(addr, None)));
        Ok(())
    }

    /// The `size` bytes at the position where the snapshot holds them all,
    /// else a refusal. Position and bytes stay as they are.
    fn read_exact(&mut self, size: usize) -> (bytes: Result<Vec<u8>, String>)
        ensures
            final(self).position == old(self).position,
            final(self).snapshot == old(self).snapshot,
            match bytes {
                Ok(v) => old(self).snapshot.holds(old(self).position, size) && v@ == old(
                    self,
                ).snapshot.bytes@.subrange(
                    old(self).position - old(self).snapshot.base,
                    old(self).position - old(self).snapshot.base + size,
                ),
                Err(_) => !old(self).snapshot.holds(old(self).position, size),
            },
    {
        let bytes = if self.in_reach(size) {
            let n: usize = self.snapshot.bytes.len();
            assert(self.position - self.snapshot.base + size <= n);
            let from: usize = (self.position - self.snapshot.base) as usize;
            Ok(slice_to_vec(slice_subrange(self.snapshot.bytes.as_slice(), from, from + size)))
        } else {
            Err(String::from_str("outside the snapshot"))
        };
        self.record = Ghost(self.record@.push(Asked::Read(size, answer_of(bytes))));
        proof {
            if size == 1 && bytes is Ok {
                assert(bytes->Ok_0@ =~= seq![
                    self.snapshot.bytes@[self.position - self.snapshot.base],
                ]);
            }
        }
        bytes
    }

    /// Puts `bytes` in place of the bytes at the position where the snapshot
    /// holds that many there, else refuses and changes nothing. The position
    /// stays as it is.
    fn write_all(&mut self, bytes: &[u8]) -> (done: Result<(), String>)
        ensures
            final(self).position == old(self).position,
            final(self).snapshot.base == old(self).snapshot.base,
            match done {
                Ok(()) => bytes@.len() <= usize::MAX && old(self).snapshot.holds(
                    old(self).position,
                    bytes@.len() as usize,
                ) && final(self).snapshot.bytes@ == old(self).snapshot.bytes@.take(
                    old(self).position - old(self).snapshot.base,
                ) + bytes@ + old(self).snapshot.bytes@.skip(
                    old(self).position - old(self).snapshot.base + bytes@.len(),
                ),
                Err(_) => !old(self).snapshot.holds(old(self).position, bytes@.len() as usize)
                    && final(self).snapshot == old(self).snapshot,
            },
    {
        let size: usize = bytes.len();
        let done = if self.in_reach(size) {
            let n: usize = self.snapshot.bytes.len();
            assert(self.position - self.snapshot.base + size <= n);
            let from: usize = (self.position - self.snapshot.base) as usize;
            let ghost before = self.snapshot.bytes@;
            assert(before =~= before.take(from as int) + bytes@.take(0) + before.skip(from + 0));
            let mut i: usize = 0;
            while i < size
                invariant
                    size == bytes@.len(),
                    from + size <= n,
                    n == before.len(),
                    0 <= i <= size,
                    self.position == old(self).position,
                    self.snapshot.base == old(self).snapshot.base,
                    self.record == old(self).record,
                    self.snapshot.bytes@ == before.take(from as int) + bytes@.take(i as int)
                        + before.skip(from + i),
                decreases size - i,
            {
                self.snapshot.bytes.set(from + i, bytes[i]);
                assert(self.snapshot.bytes@ =~= before.take(from as int) + bytes@.take(i + 1)
                    + before.skip(from + i + 1));
                i += 1;
            }
            assert(bytes@.take(size as int) =~= bytes@);
            Ok(())
        } else {
            Err(String::from_str("outside the snapshot"))
        };
        self.record = Ghost(self.record@.push(Asked::Write(bytes@, refusal_of(done))));
        done
    }
}

} // verus!
