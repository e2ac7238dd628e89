//! The handle on one process: its id, the stream over its memory, and its
//! memory map as last sampled.

use vstd::prelude::*;
use vstd::string::*;
use crate::errors::{LimeError, MemAddrError, RPMError, WPMError};
use crate::maps::{access_outcome, map_outcome, reports, Access, AccessOutcome, ProcMemoryMaps};
use crate::region::{ProcMemoryRegion, RegionView};
use crate::scan::{
    is_full_scan_of,
    is_region_scan_of,
    is_scan_of,
    parses,
    reads_in_targets,
    scan_for_pattern,
    scan_heap_for_pattern,
    scan_module_for_pattern,
    scan_region_for_pattern,
    Selection,
};
use crate::scanner::byte_reads_added;
use crate::text::{decimal_text, digits_of};
use crate::traits::{
    answer_of,
    refusal_of,
    Asked,
    MemoryStream,
    ProcessMemoryPatternScan,
    ReadProcessMemory,
    WriteProcessMemory,
};

verus! {

/// A process id, the stream over that process's memory, and its memory map.
/// The map is a sample: it changes only by a refresh.
pub struct ProcMem<S> {
    pub pid: u32,
    pub mem_file: S,
    pub maps: ProcMemoryMaps,
    /// The reads that the handle was asked for, each by address and size.
    pub served: Ghost<Seq<(u64, usize)>>,
}

/// Whether `value` is what a read of `size` bytes at `addr` through a handle
/// gives: where the map does not allow the read, the map's refusal; else the
/// bytes, as many as were asked for, or a read out of bounds where the stream
/// could not be positioned, or a failed read where it gave no or too few
/// bytes.
pub open spec fn is_guarded_read(
    value: Result<Vec<u8>, LimeError>,
    rs: Seq<ProcMemoryRegion>,
    addr: u64,
    size: usize,
) -> bool {
    let outcome = access_outcome(rs, addr, size, Access::Read);
    match value {
        Ok(bytes) => outcome == AccessOutcome::Allowed && bytes@.len() == size,
        Err(LimeError::Read(RPMError::ReadOutOfBounds(_))) => outcome == AccessOutcome::Allowed,
        Err(LimeError::Read(RPMError::FailedToRead(_))) => outcome == AccessOutcome::Allowed,
        Err(LimeError::MemAddr(e)) => outcome != AccessOutcome::Allowed && reports(
            Err(LimeError::MemAddr(e)),
            outcome,
        ),
        Err(_) => false,
    }
}

/// The text that a failure carries where the stream refused with `cause`.
pub open spec fn refused_text(cause: Seq<char>) -> Seq<char> {
    "error: "@ + cause
}

/// Whether `after` is the record of a stream that held `before` and then
/// served a write of `bytes` at `addr` that ended in `done`. The stream is
/// asked to move to `addr` and, where it does, to write `bytes`, all of them
/// and nothing else. The write succeeds exactly where the stream refuses
/// neither; a refused move gives a write out of bounds, a refused write a
/// failed write, each with the stream's own words.
pub open spec fn is_write_record(
    before: Seq<Asked>,
    after: Option<Seq<Asked>>,
    addr: u64,
    bytes: Seq<u8>,
    done: Result<(), LimeError>,
) -> bool {
    match done {
        Ok(()) => after == Some(
            before.push(Asked::Seek(addr, None)).push(Asked::Write(bytes, None)),
        ),
        Err(LimeError::Write(WPMError::WriteOutOfBounds(text))) => exists|cause: Seq<char>|
            #![trigger refused_text(cause)]
            text@ == refused_text(cause) && after == Some(
                before.push(Asked::Seek(addr, Some(cause))),
            ),
        Err(LimeError::Write(WPMError::FailedToWrite(text))) => exists|cause: Seq<char>|
            #![trigger refused_text(cause)]
            text@ == refused_text(cause) && after == Some(
                before.push(Asked::Seek(addr, None)).push(Asked::Write(bytes, Some(cause))),
            ),
        Err(_) => false,
    }
}

/// The entry of a read of `size` bytes that the stream answered by `answer`.
pub open spec fn read_entry(size: usize, answer: Result<Seq<u8>, Seq<char>>) -> Asked {
    Asked::Read(size, answer)
}

/// Whether `after` is the record of a stream that held `before` and then
/// served a read of `size` bytes at `addr` that ended in `value`, the map
/// allowing the read or not. Where the map refuses, the stream is not asked.
/// Else it is asked to move to `addr` and, where it does, to read `size`
/// bytes; the read gives the stream's bytes where they are `size` many.
pub open spec fn is_read_record(
    before: Seq<Asked>,
    after: Option<Seq<Asked>>,
    allowed: bool,
    addr: u64,
    size: usize,
    value: Result<Vec<u8>, LimeError>,
) -> bool {
    if !allowed {
        after == Some(before)
    } else {
        match value {
            Ok(bytes) => after == Some(
                before.push(Asked::Seek(addr, None)).push(Asked::Read(size, Ok(bytes@))),
            ),
            Err(LimeError::Read(RPMError::ReadOutOfBounds(_))) => exists|cause: Seq<char>|
                #![trigger refused_text(cause)]
                after == Some(before.push(Asked::Seek(addr, Some(cause)))),
            Err(LimeError::Read(RPMError::FailedToRead(text))) => exists|
                answer: Result<Seq<u8>, Seq<char>>,
            |
                #![trigger read_entry(size, answer)]
                after == Some(
                    before.push(Asked::Seek(addr, None)).push(read_entry(size, answer)),
                ) && match answer {
                    Ok(given) => given.len() != size && text@ == "error: short read"@,
                    Err(cause) => text@ == refused_text(cause),
                },
            Err(_) => false,
        }
    }
}

/// `lead` followed by `cause`.
fn because(lead: &str, cause: &String) -> (text: String)
    ensures
        text@ == lead@ + cause@,
{
    String::from_str(lead).concat(cause.as_str())
}

/// What a read makes of the stream's answer to the seek: a stream that could
/// not be positioned gives a read out of bounds.
pub fn seek_outcome_for_read(addr: u64, sought: Result<(), String>) -> (step: Result<
    (),
    LimeError,
>)
    ensures
        match step {
            Ok(()) => sought is Ok,
            Err(LimeError::Read(RPMError::ReadOutOfBounds(text))) => sought is Err && text@
                == "Address "@ + digits_of(addr as nat, 10),
            Err(_) => false,
        },
{
    match sought {
        Ok(()) => Ok(()),
        Err(_) => Err(
            LimeError::Read(RPMError::ReadOutOfBounds(because("Address ", &decimal_text(addr)))),
        ),
    }
}

/// What a read of `size` bytes makes of the stream's answer: the bytes where
/// there are exactly `size`, else a failed read, with the stream's own words
/// where it gave any.
pub fn read_outcome(size: usize, got: Result<Vec<u8>, String>) -> (value: Result<
    Vec<u8>,
    LimeError,
>)
    ensures
        match value {
            Ok(bytes) => got == Ok::<Vec<u8>, String>(bytes) && bytes@.len() == size,
            Err(LimeError::Read(RPMError::FailedToRead(text))) => match got {
                Ok(bytes) => bytes@.len() != size && text@ == "error: short read"@,
                Err(cause) => text@ == "error: "@ + cause@,
            },
            Err(_) => false,
        },
{
    match got {
        Ok(bytes) => {
            if bytes.len() == size {
                Ok(bytes)
            } else {
                Err(LimeError::Read(RPMError::FailedToRead(String::from_str("error: short read"))))
            }
        },
        Err(cause) => Err(LimeError::Read(RPMError::FailedToRead(because("error: ", &cause)))),
    }
}

/// What a write makes of the stream's answer to the seek: a stream that could
/// not be positioned gives a write out of bounds, with the stream's own words.
pub fn seek_outcome_for_write(sought: Result<(), String>) -> (step: Result<(), LimeError>)
    ensures
        match step {
            Ok(()) => sought is Ok,
            Err(LimeError::Write(WPMError::WriteOutOfBounds(text))) => sought is Err && text@
                == "error: "@ + sought->Err_0@,
            Err(_) => false,
        },
{
    match sought {
        Ok(()) => Ok(()),
        Err(cause) => Err(LimeError::Write(WPMError::WriteOutOfBounds(because("error: ", &cause)))),
    }
}

/// What a write makes of the stream's answer: a stream that could not write
/// gives a failed write, with the stream's own words.
pub fn write_outcome(written: Result<(), String>) -> (done: Result<(), LimeError>)
    ensures
        match done {
            Ok(()) => written is Ok,
            Err(LimeError::Write(WPMError::FailedToWrite(text))) => written is Err && text@
                == "error: "@ + written->Err_0@,
            Err(_) => false,
        },
{
    match written {
        Ok(()) => Ok(()),
        Err(cause) => Err(LimeError::Write(WPMError::FailedToWrite(because("error: ", &cause)))),
    }
}

impl<S: MemoryStream> ProcMem<S> {
    /// A handle on the process `pid`, from the opened stream over its memory
    /// and its sampled map.
    pub fn new(pid: u32, mem_file: S, maps: ProcMemoryMaps) -> (handle: Self)
        ensures
            handle.pid == pid,
            handle.mem_file == mem_file,
            handle.maps == maps,
            handle.served@ == Seq::<(u64, usize)>::empty(),
    {
        ProcMem { pid, mem_file, maps, served: Ghost(Seq::empty()) }
    }

    /// The map as last sampled.
    pub fn get_maps(&self) -> (maps: &ProcMemoryMaps)
        ensures
            *maps == self.maps,
    {
        &self.maps
    }

    /// Replaces the map as a whole by the one that the map text `content`
    /// writes. Where the text is refused the map stays as it was.
    pub fn refresh_maps(&mut self, content: &str) -> (done: Result<(), LimeError>)
        ensures
            final(self).pid == old(self).pid,
            final(self).mem_file == old(self).mem_file,
            final(self).served == old(self).served,
            match done {
                Ok(()) => map_outcome(content@) == Some(final(self).maps.records()),
                Err(LimeError::MemAddr(MemAddrError::ParseError(_))) => map_outcome(content@)
                    is None && final(self).maps == old(self).maps,
                Err(_) => false,
            },
    {
        match ProcMemoryMaps::parse(content) {
            Ok(maps) => {
                self.maps = maps;
                Ok(())
            },
            Err(e) => Err(e),
        }
    }

    /// Scans one region for the pattern that `pattern` writes.
    pub fn scan_region_for_pattern(&mut self, region: &ProcMemoryRegion, pattern: &str) -> (found:
        Result<Vec<u64>, LimeError>)
        ensures
            final(self).maps.records() == old(self).maps.records(),
            byte_reads_added(
                old(self).reads(),
                final(self).reads(),
                region.start as int,
                region.end as int,
            ),
            found is Err ==> final(self).reads() == old(self).reads(),
            is_region_scan_of(found, old(self), region.start, region.end, pattern@),
    {
        scan_region_for_pattern(self, region, pattern)
    }

    /// Scans the readable regions whose path contains `module_name`.
    pub fn scan_module_for_pattern(&mut self, module_name: &str, pattern: &str) -> (found: Result<
        Vec<u64>,
        LimeError,
    >)
        ensures
            final(self).maps.records() == old(self).maps.records(),
            reads_in_targets(
                old(self).reads(),
                final(self).reads(),
                old(self).maps@,
                Selection::Module,
                module_name@,
            ),
            !parses(pattern@) ==> final(self).reads() == old(self).reads(),
            is_scan_of(
                found,
                old(self),
                old(self).maps@,
                Selection::Module,
                module_name@,
                pattern@,
            ),
    {
        let sampled = self.maps.duplicate();
        scan_module_for_pattern(self, &sampled, module_name, pattern)
    }

    /// Scans the regions of the heap.
    pub fn scan_heap_for_pattern(&mut self, pattern: &str) -> (found: Result<Vec<u64>, LimeError>)
        ensures
            final(self).maps.records() == old(self).maps.records(),
            reads_in_targets(
                old(self).reads(),
                final(self).reads(),
                old(self).maps@,
                Selection::Heap,
                Seq::<char>::empty(),
            ),
            !parses(pattern@) ==> final(self).reads() == old(self).reads(),
            is_scan_of(
                found,
                old(self),
                old(self).maps@,
                Selection::Heap,
                Seq::<char>::empty(),
                pattern@,
            ),
    {
        let sampled = self.maps.duplicate();
        scan_heap_for_pattern(self, &sampled, pattern)
    }
}

impl<S: MemoryStream> ReadProcessMemory for ProcMem<S> {
    /// The handle vouches for a byte that its stream vouches for and its map
    /// allows to be read.
    open spec fn known_byte(&self, addr: u64) -> Option<u8> {
        if self.mem_file.held() is Some && self.mem_file.held()->0.contains_key(addr)
            && access_outcome(self.maps@, addr, 1, Access::Read) == AccessOutcome::Allowed {
            Some(self.mem_file.held()->0[addr])
        } else {
            None
        }
    }

    /// The handle holds its reads against its sampled map.
    open spec fn layout(&self) -> Seq<RegionView> {
        self.maps.records()
    }

    /// The handle vouches that a read fails where its map does not allow it.
    open spec fn refused(&self, addr: u64) -> bool {
        access_outcome(self.maps@, addr, 1, Access::Read) != AccessOutcome::Allowed
    }

    /// The handle keeps a record of the reads it was asked for.
    open spec fn reads(&self) -> Option<Seq<(u64, usize)>> {
        Some(self.served@)
    }

    /// Reads `size` bytes at `addr`: asks the map first, then positions the
    /// stream, then reads. The process id and the map stay as they are.
    fn read_value(&mut self, addr: u64, size: usize) -> (value: Result<Vec<u8>, LimeError>)
        ensures
            final(self).pid == old(self).pid,
            final(self).maps == old(self).maps,
            is_guarded_read(value, old(self).maps@, addr, size),
            old(self).mem_file.asked() is Some ==> is_read_record(
                old(self).mem_file.asked()->0,
                final(self).mem_file.asked(),
                access_outcome(old(self).maps@, addr, size, Access::Read) == AccessOutcome::Allowed,
                addr,
                size,
                value,
            ),
    {
        self.served = Ghost(self.served@.push((addr, size)));
        match self.maps.can_read(addr, size) {
            Ok(()) => {},
            Err(e) => {
                return Err(e);
            },
        }
        let sought = self.mem_file.seek_to(addr);
        let ghost refusal = refusal_of(sought);
        match seek_outcome_for_read(addr, sought) {
            Ok(()) => {},
            Err(e) => {
                assert(refused_text(refusal->0) == refused_text(refusal->0));
                return Err(e);
            },
        }
        let got = self.mem_file.read_exact(size);
        let ghost answer = answer_of(got);
        let value = read_outcome(size, got);
        assert(read_entry(size, answer) == Asked::Read(size, answer));
        value
    }
}

impl<S: MemoryStream> WriteProcessMemory for ProcMem<S> {
    /// Writes `value` at `addr`: positions the stream, then writes. A stream
    /// that cannot be positioned gives a write out of bounds, one that cannot
    /// write a failed write, each with the stream's own words. The process id
    /// and the map stay as they are, and the stream's record, where it keeps
    /// one, grows by the move to `addr` and the write of `value`.
    fn write_value(&mut self, addr: u64, value: &[u8]) -> (done: Result<(), LimeError>)
        ensures
            final(self).pid == old(self).pid,
            final(self).maps == old(self).maps,
            final(self).served == old(self).served,
            old(self).mem_file.asked() is Some ==> is_write_record(
                old(self).mem_file.asked()->0,
                final(self).mem_file.asked(),
                addr,
                value@,
                done,
            ),
            match done {
                Ok(()) => true,
                Err(LimeError::Write(WPMError::WriteOutOfBounds(text))) => exists|cause: String|
                    text@ == "error: "@ + #[trigger] cause@,
                Err(LimeError::Write(WPMError::FailedToWrite(text))) => exists|cause: String|
                    text@ == "error: "@ + #[trigger] cause@,
                Err(_) => false,
            },
    {
        let sought = self.mem_file.seek_to(addr);
        let ghost refusal = refusal_of(sought);
        match seek_outcome_for_write(sought) {
            Ok(()) => {},
            Err(e) => {
                assert(refused_text(refusal->0) == "error: "@ + refusal->0);
                return Err(e);
            },
        }
        let written = self.mem_file.write_all(value);
        let ghost refusal = refusal_of(written);
        let done = write_outcome(written);
        proof {
            if refusal is Some {
                assert(refused_text(refusal->0) == "error: "@ + refusal->0);
            }
        }
        done
    }
}

impl<S: MemoryStream> ProcessMemoryPatternScan for ProcMem<S> {
    /// Scans every readable region of the sampled map.
    fn scan_for_pattern(&mut self, pattern: &str) -> (found: Option<Vec<u64>>)
        ensures
            final(self).maps.records() == old(self).maps.records(),
            reads_in_targets(
                old(self).reads(),
                final(self).reads(),
                old(self).maps@,
                Selection::Readable,
                Seq::<char>::empty(),
            ),
            !parses(pattern@) ==> final(self).reads() == old(self).reads(),
            is_full_scan_of(found, old(self), old(self).maps@, pattern@),
    {
        let sampled = self.maps.duplicate();
        scan_for_pattern(self, &sampled, pattern)
    }
}

} // verus!
