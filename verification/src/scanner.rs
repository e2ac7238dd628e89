//! Searching for a pattern: in a buffer, and over an address range that is
//! read chunk by chunk.

use vstd::prelude::*;
use vstd::string::*;
use vstd::slice::slice_subrange;
use crate::errors::{GeneralErrors, LimeError, MemAddrError};
use crate::pattern::{pattern_matches, Pattern};
use crate::text::{decimal_text, digits_of};
use crate::traits::{with_read, ReadProcessMemory};

verus! {

/// Whether the pattern `p` matches the bytes of `buf` that begin at index `i`.
pub open spec fn hit_at(p: Seq<(u8, bool)>, buf: Seq<u8>, i: int) -> bool {
    &&& 0 <= i
    &&& i + p.len() <= buf.len()
    &&& pattern_matches(p, buf.subrange(i, i + p.len()))
}

/// Whether each item of `v` is less than the next.
pub open spec fn strictly_ascending(v: Seq<u64>) -> bool {
    forall|i: int, j: int| 0 <= i < j < v.len() ==> v[i] < v[j]
}

/// Whether `v` lists, in ascending order, exactly the indices of `buf` at
/// which `p` matches.
pub open spec fn is_hit_list(v: Seq<u64>, p: Seq<(u8, bool)>, buf: Seq<u8>) -> bool {
    &&& strictly_ascending(v)
    &&& forall|k: int| 0 <= k < v.len() ==> hit_at(p, buf, #[trigger] v[k] as int)
    &&& forall|i: int| #[trigger] hit_at(p, buf, i) ==> v.contains(i as u64)
}

/// Whether the reader vouches for every byte from address `from` up to `to`.
pub open spec fn all_known<R: ReadProcessMemory>(reader: &R, from: int, to: int) -> bool {
    forall|a: u64| from <= a < to ==> (#[trigger] reader.known_byte(a)) is Some
}

/// The `n` bytes from address `a` on, as the reader vouches for them.
pub open spec fn known_window<R: ReadProcessMemory>(reader: &R, a: int, n: int) -> Seq<u8> {
    Seq::new(n as nat, |j: int| reader.known_byte((a + j) as u64)->0)
}

/// Whether byte `j` of a chunk read from address `base` on is the one that
/// the reader vouches for, where it vouches for one.
pub open spec fn byte_agrees<R: ReadProcessMemory>(
    reader: &R,
    base: int,
    chunk: Seq<u8>,
    j: int,
) -> bool {
    reader.known_byte((base + j) as u64) is Some ==> chunk[j] == reader.known_byte(
        (base + j) as u64,
    )->0
}

/// Whether a chunk read from address `base` on agrees with the reader on
/// every byte that it vouches for.
pub open spec fn chunk_agrees<R: ReadProcessMemory>(reader: &R, base: int, chunk: Seq<u8>) -> bool {
    forall|j: int| 0 <= j < chunk.len() ==> #[trigger] byte_agrees(reader, base, chunk, j)
}

/// Whether the reader vouches for no failure at an address from `from` up
/// to, not including, `to`.
pub open spec fn none_refused<R: ReadProcessMemory>(reader: &R, from: int, to: int) -> bool {
    forall|a: u64| from <= a < to ==> !#[trigger] reader.refused(a)
}

/// Whether no window of `n` bytes that `v` names holds an address at which
/// the reader vouches for a failure.
pub open spec fn windows_readable<R: ReadProcessMemory>(v: Seq<u64>, reader: &R, n: int) -> bool {
    forall|k: int| 0 <= k < v.len() ==> none_refused(reader, #[trigger] v[k] as int, v[k] + n)
}

/// Whether the reader vouches, for every address from `from` up to `to`,
/// either for its byte or for a failure.
pub open spec fn steady<R: ReadProcessMemory>(reader: &R, from: int, to: int) -> bool {
    forall|a: u64|
        from <= a < to ==> (#[trigger] reader.known_byte(a)) is Some || reader.refused(a)
}

/// Over a range on which the reader is steady, every match that a scan
/// reports is a true match: the reader vouches for each byte of its window,
/// and the pattern matches these bytes.
pub proof fn law_steady_reader_scans_soundly<R: ReadProcessMemory>(
    v: Seq<u64>,
    reader: &R,
    p: Seq<(u8, bool)>,
    start: int,
    end: int,
)
    requires
        windows_in_range(v, start, end, p.len() as int),
        windows_readable(v, reader, p.len() as int),
        sound_for(v, reader, p),
        steady(reader, start, end),
    ensures
        forall|k: int|
            0 <= k < v.len() ==> all_known(reader, #[trigger] v[k] as int, v[k] + p.len())
                && pattern_matches(p, known_window(reader, v[k] as int, p.len() as int)),
{
    assert forall|k: int| 0 <= k < v.len() implies all_known(
        reader,
        #[trigger] v[k] as int,
        v[k] + p.len(),
    ) && pattern_matches(p, known_window(reader, v[k] as int, p.len() as int)) by {
        assert(none_refused(reader, v[k] as int, v[k] + p.len()));
        assert forall|a: u64| v[k] <= a < v[k] + p.len() implies (#[trigger] reader.known_byte(
            a,
        )) is Some by {
            assert(!reader.refused(a));
        }
    }
}

/// Whether `v` lists addresses in ascending order, each the start of a window
/// of `n` bytes inside `[start, end)`.
pub open spec fn windows_in_range(v: Seq<u64>, start: int, end: int, n: int) -> bool {
    &&& strictly_ascending(v)
    &&& forall|k: int| 0 <= k < v.len() ==> start <= #[trigger] v[k] && v[k] + n <= end
}

/// Whether `p` matches at every address of `v` whose window the reader
/// vouches for.
pub open spec fn sound_for<R: ReadProcessMemory>(
    v: Seq<u64>,
    reader: &R,
    p: Seq<(u8, bool)>,
) -> bool {
    forall|k: int|
        0 <= k < v.len() && all_known(reader, #[trigger] v[k] as int, v[k] + p.len())
            ==> pattern_matches(p, known_window(reader, v[k] as int, p.len() as int))
}

/// Whether `v` holds every address from `from` on, with its window ending by
/// `end` and starting before `upto`, at which `p` matches what the reader
/// vouches for.
pub open spec fn complete_for<R: ReadProcessMemory>(
    v: Seq<u64>,
    reader: &R,
    p: Seq<(u8, bool)>,
    from: int,
    upto: int,
    end: int,
) -> bool {
    forall|a: int|
        from <= a < upto && a + p.len() <= end && #[trigger] pattern_matches(
            p,
            known_window(reader, a, p.len() as int),
        ) ==> v.contains(a as u64)
}

/// A record of reads with `count` more reads of one byte each, at the
/// addresses from `base` on, one after the other.
pub open spec fn with_byte_reads(record: Option<Seq<(u64, usize)>>, base: int, count: int) -> Option<
    Seq<(u64, usize)>,
> {
    match record {
        Some(reads) => Some(reads + Seq::new(count as nat, |j: int| ((base + j) as u64, 1usize))),
        None => None,
    }
}

/// Whether the record `after` is the record `before` with nothing but reads
/// of one byte added, each at an address from `lo` up to, not including,
/// `hi`.
pub open spec fn byte_reads_added(
    before: Option<Seq<(u64, usize)>>,
    after: Option<Seq<(u64, usize)>>,
    lo: int,
    hi: int,
) -> bool {
    match before {
        None => after is None,
        Some(b) => after is Some && b.len() <= after->0.len() && after->0.take(b.len() as int) == b
            && forall|k: int|
            b.len() <= k < after->0.len() ==> (#[trigger] after->0[k]).1 == 1 && lo
                <= after->0[k].0 < hi,
    }
}

/// One more read of one byte, behind `count` of them, makes `count + 1`.
proof fn lemma_one_more_read(record: Option<Seq<(u64, usize)>>, base: int, count: int)
    requires
        0 <= count,
        0 <= base,
        base + count <= u64::MAX,
    ensures
        with_read(with_byte_reads(record, base, count), (base + count) as u64, 1)
            == with_byte_reads(record, base, count + 1),
{
    if record is Some {
        let r = record->0;
        let a = (r + Seq::new(count as nat, |j: int| ((base + j) as u64, 1usize))).push(
            ((base + count) as u64, 1usize),
        );
        let b = r + Seq::new((count + 1) as nat, |j: int| ((base + j) as u64, 1usize));
        assert(a =~= b);
    }
}

/// Reads of one byte at the addresses from `base` on lie in any range that
/// holds these addresses.
proof fn lemma_reads_in_range(
    record: Option<Seq<(u64, usize)>>,
    base: int,
    count: int,
    lo: int,
    hi: int,
)
    requires
        0 <= count,
        0 <= lo <= base,
        base + count <= hi <= u64::MAX + 1,
    ensures
        byte_reads_added(record, with_byte_reads(record, base, count), lo, hi),
{
    if record is Some {
        let b = record->0;
        let a = with_byte_reads(record, base, count)->0;
        assert(a.take(b.len() as int) =~= b);
        assert forall|k: int| b.len() <= k < a.len() implies (#[trigger] a[k]).1 == 1 && lo
            <= a[k].0 < hi by {
            assert(a[k] == ((base + (k - b.len())) as u64, 1usize));
        }
    }
}

/// Reads added in a range, then more reads added in the range, are reads
/// added in the range.
pub proof fn lemma_reads_chain(
    first: Option<Seq<(u64, usize)>>,
    second: Option<Seq<(u64, usize)>>,
    third: Option<Seq<(u64, usize)>>,
    lo: int,
    hi: int,
)
    requires
        byte_reads_added(first, second, lo, hi),
        byte_reads_added(second, third, lo, hi),
    ensures
        byte_reads_added(first, third, lo, hi),
{
    if first is Some {
        let a = first->0;
        let b = second->0;
        let c = third->0;
        assert(c.take(a.len() as int) =~= a) by {
            assert(c.take(b.len() as int) == b);
            assert(b.take(a.len() as int) == a);
            assert forall|k: int| 0 <= k < a.len() implies c[k] == a[k] by {
                assert(c.take(b.len() as int)[k] == c[k]);
                assert(b.take(a.len() as int)[k] == b[k]);
            }
        }
        assert forall|k: int| a.len() <= k < c.len() implies (#[trigger] c[k]).1 == 1 && lo
            <= c[k].0 < hi by {
            if k < b.len() {
                assert(c.take(b.len() as int)[k] == c[k]);
                assert(b[k].1 == 1);
            }
        }
    }
}

/// Nothing added is reads added in any range.
pub proof fn lemma_no_reads(record: Option<Seq<(u64, usize)>>, lo: int, hi: int)
    ensures
        byte_reads_added(record, record, lo, hi),
{
    if record is Some {
        assert(record->0.take(record->0.len() as int) =~= record->0);
    }
}

/// The text that refuses a range whose start is not below its end.
pub open spec fn range_refusal_text(start: u64, end: u64) -> Seq<char> {
    "start address ("@ + digits_of(start as nat, 10) + ") bigger or equal to end address ("@
        + digits_of(end as nat, 10) + ")"@
}

/// Searches address ranges in chunks of a fixed size.
pub struct OffsetScanner {
    chunk_size: usize,
}

impl Default for OffsetScanner {
    /// A scanner that reads one mebibyte at a time.
    fn default() -> (scanner: Self)
        ensures
            scanner.chunk_len() == 1024 * 1024,
    {
        Self::new(1024 * 1024)
    }
}

impl OffsetScanner {
    /// The size of a chunk, in bytes.
    pub closed spec fn chunk_len(&self) -> nat {
        self.chunk_size as nat
    }

    /// A scanner that reads `chunk_size` bytes at a time.
    pub fn new(chunk_size: usize) -> (scanner: Self)
        ensures
            scanner.chunk_len() == chunk_size,
    {
        Self { chunk_size }
    }

    /// The indices of `buffer` at which `pattern` matches, in ascending order.
    pub fn scan_buf_for_pattern(&self, buffer: &[u8], pattern: &Pattern) -> (found: Result<
        Vec<u64>,
        LimeError,
    >)
        ensures
            match found {
                Ok(v) => pattern@.len() > 0 && buffer@.len() >= pattern@.len() && v@.len() > 0
                    && is_hit_list(v@, pattern@, buffer@),
                Err(LimeError::General(GeneralErrors::PatternIsEmpty(m))) => pattern@.len() == 0
                    && m@ == "the pattern has no positions"@,
                Err(LimeError::General(GeneralErrors::PatternLargerThanBuffer(m))) => 0
                    < pattern@.len() && buffer@.len() < pattern@.len() && m@
                    == "the buffer is shorter than the pattern"@,
                Err(LimeError::General(GeneralErrors::PatternNotFound(m))) => 0 < pattern@.len()
                    <= buffer@.len() && (forall|i: int| !hit_at(pattern@, buffer@, i)) && m@
                    == "no position of the buffer matches"@,
                Err(_) => false,
            },
    {
        let n: usize = pattern.len();
        if n == 0 {
            return Err(
                LimeError::General(
                    GeneralErrors::PatternIsEmpty(String::from_str("the pattern has no positions")),
                ),
            );
        }
        if buffer.len() < n {
            return Err(
                LimeError::General(
                    GeneralErrors::PatternLargerThanBuffer(
                        String::from_str("the buffer is shorter than the pattern"),
                    ),
                ),
            );
        }
        let total: usize = buffer.len();
        let last: usize = total - n;
        let mut result_addr: Vec<u64> = Vec::new();
        let mut i: usize = 0;
        while i <= last
            invariant
                n == pattern@.len(),
                n > 0,
                total == buffer@.len(),
                last + n == total,
                0 <= i <= last + 1,
                strictly_ascending(result_addr@),
                forall|k: int|
                    0 <= k < result_addr.len() ==> (#[trigger] result_addr[k]) < i && hit_at(
                        pattern@,
                        buffer@,
                        result_addr[k] as int,
                    ),
                forall|j: int|
                    0 <= j < i && #[trigger] hit_at(pattern@, buffer@, j) ==> result_addr@.contains(
                        j as u64,
                    ),
            decreases last + 1 - i,
        {
            if pattern.matches(slice_subrange(buffer, i, i + n)) {
                let ghost before = result_addr@;
                result_addr.push(i as u64);
                proof {
                    assert(result_addr@[before.len() as int] == i as u64);
                    assert forall|j: int|
                        0 <= j < i + 1 && #[trigger] hit_at(
                            pattern@,
                            buffer@,
                            j,
                        ) implies result_addr@.contains(j as u64) by {
                        if j < i {
                            let k = choose|k: int| 0 <= k < before.len() && before[k] == j as u64;
                            assert(result_addr@[k] == j as u64);
                        }
                    }
                }
            }
            i += 1;
        }
        if result_addr.len() == 0 {
            proof {
                assert forall|j: int| !hit_at(pattern@, buffer@, j) by {
                    if hit_at(pattern@, buffer@, j) {
                        assert(result_addr@.contains(j as u64));
                    }
                }
            }
            Err(
                LimeError::General(
                    GeneralErrors::PatternNotFound(
                        String::from_str("no position of the buffer matches"),
                    ),
                ),
            )
        } else {
            Ok(result_addr)
        }
    }
}

impl OffsetScanner {
    /// The addresses at which `pattern` matches in a chunk that was read from
    /// address `base` on, in ascending order. A chunk shorter than the
    /// pattern, and an empty pattern, give none.
    pub fn scan_chunk_for_pattern(&self, chunk: &[u8], base: u64, pattern: &Pattern) -> (found:
        Vec<u64>)
        requires
            base + chunk@.len() <= u64::MAX + 1,
        ensures
            strictly_ascending(found@),
            pattern@.len() == 0 ==> found@.len() == 0,
            forall|k: int|
                0 <= k < found.len() ==> base <= #[trigger] found[k] && hit_at(
                    pattern@,
                    chunk@,
                    found[k] - base,
                ),
            pattern@.len() > 0 ==> forall|i: int| #[trigger]
                hit_at(pattern@, chunk@, i) ==> found@.contains((base + i) as u64),
    {
        let mut found: Vec<u64> = Vec::new();
        match self.scan_buf_for_pattern(chunk, pattern) {
            Ok(list) => {
                let mut k: usize = 0;
                while k < list.len()
                    invariant
                        0 <= k <= list.len(),
                        base + chunk@.len() <= u64::MAX + 1,
                        is_hit_list(list@, pattern@, chunk@),
                        pattern@.len() > 0,
                        found.len() == k,
                        forall|j: int| 0 <= j < k ==> #[trigger] found[j] == base + list[j],
                    decreases list.len() - k,
                {
                    assert(hit_at(pattern@, chunk@, list[k as int] as int));
                    found.push(base + list[k]);
                    k += 1;
                }
                proof {
                    assert forall|i: int| #[trigger]
                        hit_at(pattern@, chunk@, i) implies found@.contains((base + i) as u64) by {
                        assert(list@.contains(i as u64));
                        let k = choose|k: int| 0 <= k < list.len() && list[k] == i as u64;
                        assert(found[k] == base + list[k]);
                    }
                    assert forall|k: int| 0 <= k < found.len() implies base <= #[trigger] found[k]
                        && hit_at(pattern@, chunk@, found[k] - base) by {
                        assert(hit_at(pattern@, chunk@, list[k] as int));
                    }
                }
                found
            },
            Err(_) => found,
        }
    }

    /// Searches the addresses from `start_addr` up to, not including,
    /// `end_addr` for `pattern`, reading through `reader` in chunks that
    /// overlap by one byte less than the pattern is long.
    ///
    /// The result is in ascending order without repeats, and every window it
    /// names lies inside the range. Where the reader vouches for the bytes of
    /// a window the pattern matches them; where it vouches for the whole range
    /// and a chunk can hold the pattern, no match is missing.
    pub fn scan_range_for_pattern<R: ReadProcessMemory>(
        &self,
        reader: &mut R,
        start_addr: u64,
        end_addr: u64,
        pattern: &Pattern,
    ) -> (found: Result<Vec<u64>, LimeError>)
        ensures
            forall|a: u64| final(reader).known_byte(a) == old(reader).known_byte(a),
            final(reader).layout() == old(reader).layout(),
            byte_reads_added(
                old(reader).reads(),
                final(reader).reads(),
                start_addr as int,
                end_addr as int,
            ),
            found is Err ==> final(reader).reads() == old(reader).reads(),
            forall|a: u64| final(reader).refused(a) == old(reader).refused(a),
            match found {
                Ok(v) => {
                    &&& pattern@.len() > 0
                    &&& start_addr < end_addr
                    &&& windows_readable(v@, old(reader), pattern@.len() as int)
                    &&& windows_in_range(
                        v@,
                        start_addr as int,
                        end_addr as int,
                        pattern@.len() as int,
                    )
                    &&& sound_for(v@, old(reader), pattern@)
                    &&& all_known(old(reader), start_addr as int, end_addr as int)
                        && self.chunk_len() >= pattern@.len() ==> complete_for(
                        v@,
                        old(reader),
                        pattern@,
                        start_addr as int,
                        end_addr as int,
                        end_addr as int,
                    )
                },
                Err(LimeError::General(GeneralErrors::PatternIsEmpty(m))) => pattern@.len() == 0
                    && m@ == "the pattern has no positions"@,
                Err(LimeError::MemAddr(MemAddrError::AddressOutOfBounds(m))) => pattern@.len() > 0
                    && start_addr >= end_addr && m@ == range_refusal_text(start_addr, end_addr),
                Err(_) => false,
            },
    {
        let n: usize = pattern.len();
        proof {
            lemma_no_reads(reader.reads(), start_addr as int, end_addr as int);
        }
        if n == 0 {
            return Err(
                LimeError::General(
                    GeneralErrors::PatternIsEmpty(String::from_str("the pattern has no positions")),
                ),
            );
        }
        if start_addr >= end_addr {
            let mut text = String::from_str("start address (");
            text.append(decimal_text(start_addr).as_str());
            text.append(") bigger or equal to end address (");
            text.append(decimal_text(end_addr).as_str());
            text.append(")");
            return Err(LimeError::MemAddr(MemAddrError::AddressOutOfBounds(text)));
        }
        let width: u64 = n as u64;
        let overlap_size: u64 = width - 1;
        let mut results: Vec<u64> = Vec::new();
        let mut current: u64 = start_addr;
        while current < end_addr
            invariant
                n == pattern@.len(),
                width == n,
                n > 0,
                overlap_size == width - 1,
                start_addr <= current <= end_addr,
                forall|a: u64| reader.known_byte(a) == old(reader).known_byte(a),
                reader.layout() == old(reader).layout(),
                byte_reads_added(
                    old(reader).reads(),
                    reader.reads(),
                    start_addr as int,
                    end_addr as int,
                ),
                forall|a: u64| reader.refused(a) == old(reader).refused(a),
                windows_readable(results@, old(reader), n as int),
                windows_in_range(results@, start_addr as int, end_addr as int, n as int),
                forall|k: int| 0 <= k < results.len() ==> #[trigger] results[k] < current,
                sound_for(results@, old(reader), pattern@),
                all_known(old(reader), start_addr as int, end_addr as int) && self.chunk_len() >= n
                    ==> complete_for(
                    results@,
                    old(reader),
                    pattern@,
                    start_addr as int,
                    current as int,
                    end_addr as int,
                ),
            ensures
                all_known(old(reader), start_addr as int, end_addr as int) && self.chunk_len() >= n
                    ==> complete_for(
                    results@,
                    old(reader),
                    pattern@,
                    start_addr as int,
                    end_addr as int,
                    end_addr as int,
                ),
            decreases end_addr - current,
        {
            let remaining: u64 = end_addr - current;
            let read_size: u64 = if (self.chunk_size as u64) < remaining {
                self.chunk_size as u64
            } else {
                remaining
            };
            if read_size < width {
                break ;
            }
            let ghost before = results@;
            let ghost entry = *reader;
            let buffer = read_chunk(reader, current, read_size as usize);
            let mut chunk_results = self.scan_chunk_for_pattern(
                buffer.as_slice(),
                current,
                pattern,
            );
            let ghost fresh = chunk_results@;
            results.append(&mut chunk_results);
            let next: u64 = current + read_size - overlap_size;
            proof {
                assert forall|k: int| 0 <= k < results@.len() implies none_refused(
                    old(reader),
                    #[trigger] results@[k] as int,
                    results@[k] + n,
                ) by {
                    if k < before.len() {
                        assert(results@[k] == before[k]);
                        assert(none_refused(old(reader), before[k] as int, before[k] + n));
                    } else {
                        let f = fresh[k - before.len()];
                        assert(results@[k] == f);
                        assert(hit_at(pattern@, buffer@, f - current));
                        assert(none_refused(&entry, current as int, current + buffer@.len()));
                    }
                }
                lemma_reads_in_range(
                    entry.reads(),
                    current as int,
                    reads_made(buffer@.len() as int, read_size as int),
                    start_addr as int,
                    end_addr as int,
                );
                lemma_reads_chain(
                    old(reader).reads(),
                    entry.reads(),
                    reader.reads(),
                    start_addr as int,
                    end_addr as int,
                );
                lemma_chunk_step(
                    old(reader),
                    &entry,
                    pattern@,
                    before,
                    fresh,
                    buffer@,
                    start_addr as int,
                    current as int,
                    read_size as int,
                    end_addr as int,
                    self.chunk_len() >= n,
                );
            }
            current = next;
        }
        // Each chunk reports addresses below the start of the next one, so the
        // list stands in ascending order without repeats.
        Ok(results)
    }
}

/// How many reads a chunk of `got` bytes took where `size` were wanted: one
/// for each byte, and one more, the one that failed, where bytes are missing.
pub open spec fn reads_made(got: int, size: int) -> int {
    if got == size {
        size
    } else {
        got + 1
    }
}

/// Reads up to `size` bytes from address `base` on, one read per byte, and
/// stops at the first read that fails or gives anything but one byte.
pub fn read_chunk<R: ReadProcessMemory>(reader: &mut R, base: u64, size: usize) -> (chunk: Vec<u8>)
    requires
        base + size <= u64::MAX + 1,
    ensures
        chunk@.len() <= size,
        final(reader).reads() == with_byte_reads(
            old(reader).reads(),
            base as int,
            reads_made(chunk@.len() as int, size as int),
        ),
        forall|a: u64| final(reader).refused(a) == old(reader).refused(a),
        none_refused(old(reader), base as int, base + chunk@.len()),
        forall|a: u64| final(reader).known_byte(a) == old(reader).known_byte(a),
        final(reader).layout() == old(reader).layout(),
        chunk_agrees(old(reader), base as int, chunk@),
        all_known(old(reader), base as int, base + size) ==> chunk@.len() == size,
{
    let mut chunk: Vec<u8> = Vec::new();
    let mut offset: usize = 0;
    let mut failed: bool = false;
    assert(with_byte_reads(reader.reads(), base as int, 0) == reader.reads()) by {
        if reader.reads() is Some {
            assert(reader.reads()->0 + Seq::new(0, |j: int| ((base + j) as u64, 1usize))
                =~= reader.reads()->0);
        }
    }
    while offset < size && !failed
        invariant
            base + size <= u64::MAX + 1,
            0 <= offset <= size,
            failed ==> offset < size,
            forall|a: u64| reader.refused(a) == old(reader).refused(a),
            none_refused(old(reader), base as int, base + offset),
            reader.reads() == with_byte_reads(
                old(reader).reads(),
                base as int,
                offset + if failed {
                    1int
                } else {
                    0int
                },
            ),
            chunk@.len() == offset,
            forall|a: u64| reader.known_byte(a) == old(reader).known_byte(a),
            reader.layout() == old(reader).layout(),
            chunk_agrees(old(reader), base as int, chunk@),
            failed ==> !all_known(old(reader), base as int, base + size),
        decreases size - offset + if failed { 0int } else { 1int },
    {
        let addr: u64 = base + offset as u64;
        let ghost before = chunk@;
        let ghost known = reader.known_byte(addr);
        proof {
            lemma_one_more_read(old(reader).reads(), base as int, offset as int);
        }
        match reader.read_value(addr, 1) {
            Ok(value) => {
                if value.len() == 1 {
                    chunk.push(value[0]);
                    proof {
                        if known is Some {
                            assert(value@[0] == known->0);
                        }
                        assert forall|j: int| 0 <= j < chunk@.len() implies #[trigger] byte_agrees(
                            old(reader),
                            base as int,
                            chunk@,
                            j,
                        ) by {
                            if j < offset {
                                assert(byte_agrees(old(reader), base as int, before, j));
                            }
                        }
                    }
                    offset += 1;
                } else {
                    failed = true;
                }
            },
            Err(_) => {
                failed = true;
            },
        }
    }
    chunk
}

/// One chunk's part in a range scan: with the matches of the chunk added,
/// the list stays in order inside the range, below the next chunk, sound, and
/// complete up to the next chunk.
proof fn lemma_chunk_step<R: ReadProcessMemory>(
    origin: &R,
    entry: &R,
    p: Seq<(u8, bool)>,
    before: Seq<u64>,
    fresh: Seq<u64>,
    chunk: Seq<u8>,
    start: int,
    current: int,
    read_size: int,
    end: int,
    roomy: bool,
)
    requires
        p.len() > 0,
        0 <= start <= current,
        read_size >= p.len(),
        current + read_size <= end <= u64::MAX,
        forall|a: u64| entry.known_byte(a) == origin.known_byte(a),
        windows_in_range(before, start, end, p.len() as int),
        forall|k: int| 0 <= k < before.len() ==> #[trigger] before[k] < current,
        sound_for(before, origin, p),
        all_known(origin, start, end) && roomy ==> complete_for(
            before,
            origin,
            p,
            start,
            current,
            end,
        ),
        chunk.len() <= read_size,
        chunk_agrees(entry, current, chunk),
        all_known(entry, current, current + read_size) ==> chunk.len() == read_size,
        strictly_ascending(fresh),
        forall|k: int|
            0 <= k < fresh.len() ==> current <= #[trigger] fresh[k] && hit_at(
                p,
                chunk,
                fresh[k] - current,
            ),
        forall|i: int| #[trigger] hit_at(p, chunk, i) ==> fresh.contains((current + i) as u64),
    ensures
        windows_in_range(before + fresh, start, end, p.len() as int),
        forall|k: int|
            0 <= k < (before + fresh).len() ==> #[trigger] (before + fresh)[k] < current
                + read_size - (p.len() - 1),
        sound_for(before + fresh, origin, p),
        all_known(origin, start, end) && roomy ==> complete_for(
            before + fresh,
            origin,
            p,
            start,
            current + read_size - (p.len() - 1),
            end,
        ),
{
    let all = before + fresh;
    let n = p.len() as int;
    assert forall|k: int| 0 <= k < all.len() implies start <= #[trigger] all[k] && all[k] + n
        <= end && all[k] < current + read_size - (n - 1) by {
        if k >= before.len() {
            assert(all[k] == fresh[k - before.len()]);
        } else {
            assert(all[k] == before[k]);
        }
    }
    assert forall|i: int, j: int| 0 <= i < j < all.len() implies all[i] < all[j] by {
        if i >= before.len() {
            assert(all[i] == fresh[i - before.len()]);
            assert(all[j] == fresh[j - before.len()]);
        } else if j >= before.len() {
            assert(all[i] == before[i]);
            assert(all[j] == fresh[j - before.len()]);
        } else {
            assert(all[i] == before[i]);
            assert(all[j] == before[j]);
        }
    }
    assert forall|k: int|
        0 <= k < all.len() && all_known(origin, #[trigger] all[k] as int, all[k] + n) implies
        pattern_matches(p, known_window(origin, all[k] as int, n)) by {
        if k >= before.len() {
            let f = fresh[k - before.len()];
            assert(all[k] == f);
            lemma_window_is_chunk(origin, entry, p, chunk, current, f as int);
        } else {
            assert(all[k] == before[k]);
        }
    }
    if all_known(origin, start, end) && roomy {
        assert(all_known(entry, current, current + read_size));
        assert forall|a: int|
            start <= a < current + read_size - (n - 1) && a + n <= end && #[trigger] pattern_matches(
                p,
                known_window(origin, a, n),
            ) implies all.contains(a as u64) by {
            if a < current {
                assert(before.contains(a as u64));
                let k = choose|k: int| 0 <= k < before.len() && before[k] == a as u64;
                assert(all[k] == a as u64);
            } else {
                lemma_window_is_chunk(origin, entry, p, chunk, current, a);
                assert(hit_at(p, chunk, a - current));
                assert(fresh.contains((current + (a - current)) as u64));
                let k = choose|k: int| 0 <= k < fresh.len() && fresh[k] == a as u64;
                assert(all[before.len() + k] == a as u64);
            }
        }
    }
}

/// Where the reader vouches for the window at address `a`, and the window
/// lies in a chunk that agrees with the reader, the window is that part of
/// the chunk.
proof fn lemma_window_is_chunk<R: ReadProcessMemory>(
    origin: &R,
    entry: &R,
    p: Seq<(u8, bool)>,
    chunk: Seq<u8>,
    current: int,
    a: int,
)
    requires
        0 <= current <= a,
        a + p.len() <= current + chunk.len(),
        a + p.len() <= u64::MAX,
        forall|x: u64| entry.known_byte(x) == origin.known_byte(x),
        chunk_agrees(entry, current, chunk),
        all_known(origin, a, a + p.len()),
    ensures
        known_window(origin, a, p.len() as int) == chunk.subrange(
            a - current,
            a - current + p.len(),
        ),
{
    let n = p.len() as int;
    let w = known_window(origin, a, n);
    let c = chunk.subrange(a - current, a - current + n);
    assert forall|j: int| 0 <= j < n implies w[j] == c[j] by {
        assert(byte_agrees(entry, current, chunk, a - current + j));
        assert((current + (a - current + j)) as u64 == (a + j) as u64);
        assert(origin.known_byte((a + j) as u64) is Some);
    }
    assert(w =~= c);
}

} // verus!
