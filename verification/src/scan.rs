//! Scans of the regions of a memory map: one region, the regions of a
//! module, the heap, or all that can be read.

use vstd::prelude::*;
use vstd::string::*;
use crate::errors::{GeneralErrors, LimeError, MemAddrError};
use crate::maps::{region_named, region_passes, NameTest, ProcMemoryMaps};
use crate::pattern::{first_bad_from, is_parse_of, pattern_matches, token_cells, Pattern};
use crate::region::{ProcMemoryRegion, RegionView};
use crate::scanner::{
    all_known,
    byte_reads_added,
    complete_for,
    lemma_no_reads,
    known_window,
    sound_for,
    none_refused,
    strictly_ascending,
    windows_in_range,
    windows_readable,
    OffsetScanner,
};
use crate::text::{chars_of, tokens};
use crate::traits::ReadProcessMemory;

verus! {

/// Which regions of a map a scan visits.
#[derive(Clone, Copy, Debug, PartialEq, Eq, Structural)]
pub enum Selection {
    /// The readable regions whose path contains a name.
    Module,
    /// The regions whose path is `[heap]`.
    Heap,
    /// The readable regions.
    Readable,
}

/// Whether a scan of the selection visits the region.
pub open spec fn targeted(r: RegionView, selection: Selection, name: Seq<char>) -> bool {
    match selection {
        Selection::Module => region_named(r, NameTest::Contains, name) && r.readable(),
        Selection::Heap => region_named(r, NameTest::Exact, "[heap]"@),
        Selection::Readable => r.readable(),
    }
}

/// Whether each item of `v` is at most the next.
pub open spec fn ascending(v: Seq<u64>) -> bool {
    forall|i: int, j: int| 0 <= i < j < v.len() ==> v[i] <= v[j]
}

/// Whether the window of `n` bytes at address `a` lies inside a region of
/// `rs` that the selection visits.
pub open spec fn in_target(
    rs: Seq<ProcMemoryRegion>,
    selection: Selection,
    name: Seq<char>,
    a: u64,
    n: int,
) -> bool {
    exists|j: int|
        0 <= j < rs.len() && targeted(#[trigger] rs[j]@, selection, name) && rs[j].start <= a && a
            + n <= rs[j].end
}

/// Whether every window that `v` names lies inside a visited region.
pub open spec fn all_in_targets(
    v: Seq<u64>,
    rs: Seq<ProcMemoryRegion>,
    selection: Selection,
    name: Seq<char>,
    n: int,
) -> bool {
    forall|k: int| 0 <= k < v.len() ==> in_target(rs, selection, name, #[trigger] v[k], n)
}

/// Whether `v` misses no match in a visited region that the reader vouches
/// for from start to end.
pub open spec fn complete_in_targets<R: ReadProcessMemory>(
    v: Seq<u64>,
    reader: &R,
    p: Seq<(u8, bool)>,
    rs: Seq<ProcMemoryRegion>,
    selection: Selection,
    name: Seq<char>,
    upto: int,
) -> bool {
    forall|j: int|
        0 <= j < upto && j < rs.len() && targeted(#[trigger] rs[j]@, selection, name) && all_known(
            reader,
            rs[j].start as int,
            rs[j].end as int,
        ) ==> complete_for(v, reader, p, rs[j].start as int, rs[j].end as int, rs[j].end as int)
}

/// A list that holds all that another holds is complete wherever the other
/// is.
proof fn lemma_complete_grows<R: ReadProcessMemory>(
    before: Seq<u64>,
    all: Seq<u64>,
    reader: &R,
    p: Seq<(u8, bool)>,
    rs: Seq<ProcMemoryRegion>,
    selection: Selection,
    name: Seq<char>,
    upto: int,
)
    requires
        complete_in_targets(before, reader, p, rs, selection, name, upto),
        forall|x: u64| before.contains(x) ==> all.contains(x),
    ensures
        complete_in_targets(all, reader, p, rs, selection, name, upto),
{
    assert forall|j: int|
        0 <= j < upto && j < rs.len() && targeted(#[trigger] rs[j]@, selection, name) && all_known(
            reader,
            rs[j].start as int,
            rs[j].end as int,
        ) implies complete_for(
        all,
        reader,
        p,
        rs[j].start as int,
        rs[j].end as int,
        rs[j].end as int,
    ) by {
        assert(complete_for(
            before,
            reader,
            p,
            rs[j].start as int,
            rs[j].end as int,
            rs[j].end as int,
        ));
    }
}

/// What is complete for a reader is complete for one that vouches for the
/// same bytes.
proof fn lemma_complete_for_same_bytes<R: ReadProcessMemory>(
    v: Seq<u64>,
    entry: &R,
    origin: &R,
    p: Seq<(u8, bool)>,
    start: int,
    end: int,
)
    requires
        forall|a: u64| entry.known_byte(a) == origin.known_byte(a),
        complete_for(v, entry, p, start, end, end),
    ensures
        complete_for(v, origin, p, start, end, end),
{
    assert forall|a: int|
        start <= a < end && a + p.len() <= end && #[trigger] pattern_matches(
            p,
            known_window(origin, a, p.len() as int),
        ) implies v.contains(a as u64) by {
        assert(known_window(entry, a, p.len() as int) =~= known_window(
            origin,
            a,
            p.len() as int,
        ));
        assert(pattern_matches(p, known_window(entry, a, p.len() as int)));
    }
}

/// Whether the address lies in a region that the selection visits.
pub open spec fn read_in_target(
    rs: Seq<ProcMemoryRegion>,
    selection: Selection,
    name: Seq<char>,
    addr: u64,
) -> bool {
    exists|j: int|
        0 <= j < rs.len() && targeted(#[trigger] rs[j]@, selection, name) && rs[j].start <= addr
            < rs[j].end
}

/// Whether the record `after` is the record `before` with nothing but reads
/// of one byte added, each at an address inside a region that the selection
/// visits.
pub open spec fn reads_in_targets(
    before: Option<Seq<(u64, usize)>>,
    after: Option<Seq<(u64, usize)>>,
    rs: Seq<ProcMemoryRegion>,
    selection: Selection,
    name: Seq<char>,
) -> bool {
    match before {
        None => after is None,
        Some(b) => after is Some && b.len() <= after->0.len() && after->0.take(b.len() as int) == b
            && forall|k: int|
            b.len() <= k < after->0.len() ==> (#[trigger] after->0[k]).1 == 1 && read_in_target(
                rs,
                selection,
                name,
                after->0[k].0,
            ),
    }
}

/// Whether no two regions that the selection visits share an address, each
/// taken from its start up to, not including, its end.
pub open spec fn targets_apart(rs: Seq<ProcMemoryRegion>, selection: Selection, name: Seq<char>) -> bool {
    forall|i: int, j: int|
        #![trigger rs[i], rs[j]]
        0 <= i < j < rs.len() && targeted(rs[i]@, selection, name) && targeted(
            rs[j]@,
            selection,
            name,
        ) ==> rs[i].end <= rs[j].start || rs[j].end <= rs[i].start
}

/// Whether the window of `n` bytes at address `a` lies inside a visited
/// region among the first `upto`.
pub open spec fn in_target_below(
    rs: Seq<ProcMemoryRegion>,
    selection: Selection,
    name: Seq<char>,
    a: u64,
    n: int,
    upto: int,
) -> bool {
    exists|j: int|
        0 <= j < upto && j < rs.len() && targeted(#[trigger] rs[j]@, selection, name)
            && rs[j].start <= a && a + n <= rs[j].end
}

/// Whether every window that `v` names lies inside a visited region among
/// the first `upto`, and no address occurs twice.
pub open spec fn distinct_below(
    v: Seq<u64>,
    rs: Seq<ProcMemoryRegion>,
    selection: Selection,
    name: Seq<char>,
    n: int,
    upto: int,
) -> bool {
    &&& v.no_duplicates()
    &&& forall|k: int|
        0 <= k < v.len() ==> in_target_below(rs, selection, name, #[trigger] v[k], n, upto)
}

/// What is distinct among the first regions is so among one region more.
proof fn lemma_distinct_skips(
    v: Seq<u64>,
    rs: Seq<ProcMemoryRegion>,
    selection: Selection,
    name: Seq<char>,
    n: int,
    upto: int,
)
    requires
        distinct_below(v, rs, selection, name, n, upto),
    ensures
        distinct_below(v, rs, selection, name, n, upto + 1),
{
    assert forall|k: int| 0 <= k < v.len() implies in_target_below(
        rs,
        selection,
        name,
        #[trigger] v[k],
        n,
        upto + 1,
    ) by {
        assert(in_target_below(rs, selection, name, v[k], n, upto));
        let j = choose|j: int|
            0 <= j < upto && j < rs.len() && targeted(#[trigger] rs[j]@, selection, name)
                && rs[j].start <= v[k] && v[k] + n <= rs[j].end;
        assert(targeted(rs[j]@, selection, name));
    }
}

/// The matches of one more region, which lies apart from the regions before
/// it, are new.
proof fn lemma_distinct_grows(
    before: Seq<u64>,
    fresh: Seq<u64>,
    rs: Seq<ProcMemoryRegion>,
    selection: Selection,
    name: Seq<char>,
    n: int,
    i: int,
)
    requires
        targets_apart(rs, selection, name),
        n > 0,
        0 <= i < rs.len(),
        targeted(rs[i]@, selection, name),
        distinct_below(before, rs, selection, name, n, i),
        windows_in_range(fresh, rs[i].start as int, rs[i].end as int, n),
    ensures
        distinct_below(before + fresh, rs, selection, name, n, i + 1),
{
    let all = before + fresh;
    lemma_distinct_skips(before, rs, selection, name, n, i);
    assert forall|k: int| 0 <= k < all.len() implies in_target_below(
        rs,
        selection,
        name,
        #[trigger] all[k],
        n,
        i + 1,
    ) by {
        if k < before.len() {
            assert(all[k] == before[k]);
        } else {
            assert(all[k] == fresh[k - before.len()]);
            assert(targeted(rs[i]@, selection, name));
        }
    }
    assert forall|x: int, y: int| 0 <= x < all.len() && 0 <= y < all.len() && x != y implies all[x]
        != all[y] by {
        if x < before.len() && y < before.len() {
            assert(all[x] == before[x] && all[y] == before[y]);
        } else if x >= before.len() && y >= before.len() {
            assert(all[x] == fresh[x - before.len()] && all[y] == fresh[y - before.len()]);
        } else {
            let old_one = if x < before.len() {
                x
            } else {
                y
            };
            let new_one = if x < before.len() {
                y
            } else {
                x
            };
            assert(all[old_one] == before[old_one]);
            assert(all[new_one] == fresh[new_one - before.len()]);
            assert(in_target_below(rs, selection, name, before[old_one], n, i));
            let j = choose|j: int|
                0 <= j < i && j < rs.len() && targeted(#[trigger] rs[j]@, selection, name)
                    && rs[j].start <= before[old_one] && before[old_one] + n <= rs[j].end;
            assert(rs[j].end <= rs[i].start || rs[i].end <= rs[j].start);
        }
    }
}

/// A list in ascending order that holds what a list without repeats holds
/// is in strictly ascending order.
proof fn lemma_sorted_distinct(unsorted: Seq<u64>, sorted: Seq<u64>)
    requires
        unsorted.no_duplicates(),
        sorted.to_multiset() == unsorted.to_multiset(),
        ascending(sorted),
    ensures
        strictly_ascending(sorted),
{
    unsorted.lemma_multiset_has_no_duplicates();
    sorted.lemma_multiset_has_no_duplicates_conv();
    assert forall|i: int, j: int| 0 <= i < j < sorted.len() implies sorted[i] < sorted[j] by {
        assert(sorted[i] != sorted[j]);
    }
}

/// More reads inside a visited region keep the reads inside the visited
/// regions.
proof fn lemma_reads_grow(
    first: Option<Seq<(u64, usize)>>,
    second: Option<Seq<(u64, usize)>>,
    third: Option<Seq<(u64, usize)>>,
    rs: Seq<ProcMemoryRegion>,
    selection: Selection,
    name: Seq<char>,
    i: int,
)
    requires
        0 <= i < rs.len(),
        targeted(rs[i]@, selection, name),
        reads_in_targets(first, second, rs, selection, name),
        byte_reads_added(second, third, rs[i].start as int, rs[i].end as int),
    ensures
        reads_in_targets(first, third, rs, selection, name),
{
    if first is Some {
        let a = first->0;
        let b = second->0;
        let c = third->0;
        assert(c.take(a.len() as int) =~= a) by {
            assert forall|k: int| 0 <= k < a.len() implies c[k] == a[k] by {
                assert(c.take(b.len() as int)[k] == c[k]);
                assert(b.take(a.len() as int)[k] == b[k]);
            }
        }
        assert forall|k: int| a.len() <= k < c.len() implies (#[trigger] c[k]).1 == 1
            && read_in_target(rs, selection, name, c[k].0) by {
            if k < b.len() {
                assert(c.take(b.len() as int)[k] == c[k]);
                assert(b[k].1 == 1);
            } else {
                assert(targeted(rs[i]@, selection, name));
            }
        }
    }
}

/// Nothing added keeps the reads inside the visited regions.
pub proof fn lemma_no_reads_in_targets(
    record: Option<Seq<(u64, usize)>>,
    rs: Seq<ProcMemoryRegion>,
    selection: Selection,
    name: Seq<char>,
)
    ensures
        reads_in_targets(record, record, rs, selection, name),
{
    if record is Some {
        assert(record->0.take(record->0.len() as int) =~= record->0);
    }
}

/// Windows that one reader does not refuse, and more such windows, are
/// windows that a reader with the same refusals does not refuse.
proof fn lemma_readable_joins<R: ReadProcessMemory>(
    before: Seq<u64>,
    fresh: Seq<u64>,
    origin: &R,
    entry: &R,
    n: int,
)
    requires
        forall|a: u64| entry.refused(a) == origin.refused(a),
        windows_readable(before, origin, n),
        windows_readable(fresh, entry, n),
    ensures
        windows_readable(before + fresh, origin, n),
{
    let all = before + fresh;
    assert forall|k: int| 0 <= k < all.len() implies none_refused(
        origin,
        #[trigger] all[k] as int,
        all[k] + n,
    ) by {
        if k < before.len() {
            assert(all[k] == before[k]);
            assert(none_refused(origin, before[k] as int, before[k] + n));
        } else {
            let f = fresh[k - before.len()];
            assert(all[k] == f);
            assert(none_refused(entry, f as int, f + n));
            assert forall|a: u64| f <= a < f + n implies !#[trigger] origin.refused(a) by {
                assert(!entry.refused(a));
            }
        }
    }
}

/// A list that holds nothing but what another holds names no refused window
/// where the other names none.
proof fn lemma_readable_stays<R: ReadProcessMemory>(
    before: Seq<u64>,
    all: Seq<u64>,
    reader: &R,
    n: int,
)
    requires
        windows_readable(before, reader, n),
        forall|x: u64| all.contains(x) ==> before.contains(x),
    ensures
        windows_readable(all, reader, n),
{
    assert forall|k: int| 0 <= k < all.len() implies none_refused(
        reader,
        #[trigger] all[k] as int,
        all[k] + n,
    ) by {
        assert(all.contains(all[k]));
        let w = choose|w: int| 0 <= w < before.len() && before[w] == all[k];
        assert(none_refused(reader, before[w] as int, before[w] + n));
    }
}

/// Whether the pattern text is well formed.
pub open spec fn parses(text: Seq<char>) -> bool {
    first_bad_from(tokens(text), 0) == tokens(text).len()
}

/// The pattern that a well-formed text writes.
pub open spec fn parsed_cells(text: Seq<char>) -> Seq<(u8, bool)> {
    token_cells(tokens(text))
}

/// Whether the scan of a region can start: the pattern has a position and
/// the region's start lies below its end.
pub open spec fn scannable(r: RegionView, n: int) -> bool {
    n > 0 && r.start < r.end
}

/// Sorts the addresses into ascending order.
///
/// Calls `sort_unstable` of the standard library's slices, which reorders the
/// items in place so that none is greater than the next and neither adds nor
/// drops one. That much is taken from its documentation and not proved here.
#[verifier::external_body]
fn sort_addresses(v: &mut Vec<u64>)
    ensures
        final(v)@.to_multiset() == old(v)@.to_multiset(),
        ascending(final(v)@),
{
    v.sort_unstable();
}

/// Whether the region is one that the selection visits.
fn is_targeted(region: &ProcMemoryRegion, selection: Selection, name: &[char]) -> (visit: bool)
    ensures
        visit == targeted(region@, selection, name@),
{
    match selection {
        Selection::Module => region_passes(region, NameTest::Contains, name)
            && region.is_readable(),
        Selection::Heap => {
            let heap = chars_of("[heap]");
            region_passes(region, NameTest::Exact, heap.as_slice())
        },
        Selection::Readable => region.is_readable(),
    }
}

/// Scans each region of `maps` that the selection visits, in the order of the
/// map, and returns all matches in ascending order.
///
/// With `strict` set the first region whose scan cannot start ends the whole
/// scan with that region's error; without it such a region is passed over.
pub fn scan_selected<R: ReadProcessMemory>(
    reader: &mut R,
    maps: &ProcMemoryMaps,
    selection: Selection,
    name: &str,
    pattern: &Pattern,
    strict: bool,
) -> (found: Result<Vec<u64>, LimeError>)
    ensures
        forall|a: u64| final(reader).known_byte(a) == old(reader).known_byte(a),
        final(reader).layout() == old(reader).layout(),
        forall|a: u64| final(reader).refused(a) == old(reader).refused(a),
        reads_in_targets(old(reader).reads(), final(reader).reads(), maps@, selection, name@),
        match found {
            Ok(v) => {
                &&& ascending(v@)
                &&& pattern@.len() == 0 ==> v@.len() == 0
                &&& targets_apart(maps@, selection, name@) ==> strictly_ascending(v@)
                &&& windows_readable(v@, old(reader), pattern@.len() as int)
                &&& all_in_targets(v@, maps@, selection, name@, pattern@.len() as int)
                &&& sound_for(v@, old(reader), pattern@)
                &&& 0 < pattern@.len() <= 1024 * 1024 ==> complete_in_targets(
                    v@,
                    old(reader),
                    pattern@,
                    maps@,
                    selection,
                    name@,
                    maps@.len() as int,
                )
                &&& strict ==> forall|j: int|
                    0 <= j < maps@.len() && targeted(#[trigger] maps@[j]@, selection, name@)
                        ==> scannable(maps@[j]@, pattern@.len() as int)
            },
            Err(LimeError::General(GeneralErrors::PatternIsEmpty(_))) => strict && pattern@.len()
                == 0 && exists|j: int|
                0 <= j < maps@.len() && targeted(#[trigger] maps@[j]@, selection, name@),
            Err(LimeError::MemAddr(MemAddrError::AddressOutOfBounds(_))) => strict
                && pattern@.len() > 0 && exists|j: int|
                0 <= j < maps@.len() && targeted(#[trigger] maps@[j]@, selection, name@)
                    && maps@[j].start >= maps@[j].end,
            Err(_) => false,
        },
{
    let wanted = chars_of(name);
    let scanner = OffsetScanner::default();
    let regions = maps.get_regions();
    let mut results: Vec<u64> = Vec::new();
    let ghost n = pattern@.len() as int;
    let mut i: usize = 0;
    proof {
        lemma_no_reads_in_targets(reader.reads(), maps@, selection, name@);
    }
    while i < regions.len()
        invariant
            regions@ == maps@,
            wanted@ == name@,
            n == pattern@.len(),
            0 <= i <= regions.len(),
            forall|a: u64| reader.known_byte(a) == old(reader).known_byte(a),
            reader.layout() == old(reader).layout(),
            reads_in_targets(old(reader).reads(), reader.reads(), maps@, selection, name@),
            forall|a: u64| reader.refused(a) == old(reader).refused(a),
            windows_readable(results@, old(reader), n),
            n == 0 ==> results@.len() == 0,
            targets_apart(maps@, selection, name@) ==> distinct_below(
                results@,
                maps@,
                selection,
                name@,
                n,
                i as int,
            ),
            all_in_targets(results@, maps@, selection, name@, n),
            sound_for(results@, old(reader), pattern@),
            scanner.chunk_len() == 1024 * 1024,
            0 < n <= 1024 * 1024 ==> complete_in_targets(
                results@,
                old(reader),
                pattern@,
                maps@,
                selection,
                name@,
                i as int,
            ),
            strict ==> forall|j: int|
                0 <= j < i && targeted(#[trigger] maps@[j]@, selection, name@) ==> scannable(
                    maps@[j]@,
                    n,
                ),
        decreases regions.len() - i,
    {
        let region = &regions[i];
        proof {
            if targets_apart(maps@, selection, name@) {
                lemma_distinct_skips(results@, maps@, selection, name@, n, i as int);
            }
        }
        if is_targeted(region, selection, wanted.as_slice()) {
            let ghost entry = *reader;
            let ghost before = results@;
            match scanner.scan_range_for_pattern(reader, region.start, region.end, pattern) {
                Ok(mut region_results) => {
                    let ghost fresh = region_results@;
                    results.append(&mut region_results);
                    proof {
                        lemma_readable_joins(before, fresh, old(reader), &entry, n);
                        lemma_reads_grow(
                            old(reader).reads(),
                            entry.reads(),
                            reader.reads(),
                            maps@,
                            selection,
                            name@,
                            i as int,
                        );
                        if targets_apart(maps@, selection, name@) {
                            lemma_distinct_grows(
                                before,
                                fresh,
                                maps@,
                                selection,
                                name@,
                                n,
                                i as int,
                            );
                        }
                        assert forall|k: int| 0 <= k < results@.len() implies in_target(
                            maps@,
                            selection,
                            name@,
                            #[trigger] results@[k],
                            n,
                        ) by {
                            if k < before.len() {
                                assert(results@[k] == before[k]);
                            } else {
                                assert(results@[k] == fresh[k - before.len()]);
                                assert(targeted(maps@[i as int]@, selection, name@));
                            }
                        }
                        assert forall|k: int|
                            0 <= k < results@.len() && all_known(
                                old(reader),
                                #[trigger] results@[k] as int,
                                results@[k] + n,
                            ) implies pattern_matches(
                            pattern@,
                            known_window(old(reader), results@[k] as int, n),
                        ) by {
                            if k < before.len() {
                                assert(results@[k] == before[k]);
                            } else {
                                let f = fresh[k - before.len()];
                                assert(results@[k] == f);
                                assert(all_known(&entry, f as int, f + n));
                                assert(known_window(&entry, f as int, n)
                                    =~= known_window(old(reader), f as int, n));
                            }
                        }
                        if 0 < n <= 1024 * 1024 {
                            assert forall|x: u64| before.contains(x) implies results@.contains(
                                x,
                            ) by {
                                let w = choose|w: int| 0 <= w < before.len() && before[w] == x;
                                assert(results@[w] == x);
                            }
                            lemma_complete_grows(
                                before,
                                results@,
                                old(reader),
                                pattern@,
                                maps@,
                                selection,
                                name@,
                                i as int,
                            );
                            if all_known(old(reader), region.start as int, region.end as int) {
                                assert(all_known(&entry, region.start as int, region.end as int));
                                lemma_complete_for_same_bytes(
                                    fresh,
                                    &entry,
                                    old(reader),
                                    pattern@,
                                    region.start as int,
                                    region.end as int,
                                );
                                assert forall|a: int|
                                    region.start <= a < region.end && a + n <= region.end
                                        && #[trigger] pattern_matches(
                                        pattern@,
                                        known_window(old(reader), a, n),
                                    ) implies results@.contains(a as u64) by {
                                    assert(fresh.contains(a as u64));
                                    let w = choose|w: int|
                                        0 <= w < fresh.len() && fresh[w] == a as u64;
                                    assert(results@[before.len() + w] == a as u64);
                                }
                            }
                        }
                    }
                },
                Err(e) => {
                    if strict {
                        assert(targeted(maps@[i as int]@, selection, name@));
                        return Err(e);
                    }
                },
            }
        }
        i += 1;
    }
    let ghost unsorted = results@;
    sort_addresses(&mut results);
    proof {
        unsorted.to_multiset_ensures();
        results@.to_multiset_ensures();
        if targets_apart(maps@, selection, name@) {
            lemma_sorted_distinct(unsorted, results@);
        }
        assert forall|x: u64| results@.contains(x) implies unsorted.contains(x) by {
            assert(results@.to_multiset().count(x) > 0);
            assert(unsorted.to_multiset().count(x) > 0);
        }
        lemma_readable_stays(unsorted, results@, old(reader), n);
        if 0 < n <= 1024 * 1024 {
            assert forall|x: u64| unsorted.contains(x) implies results@.contains(x) by {
                assert(unsorted.to_multiset().count(x) > 0);
                assert(results@.to_multiset().count(x) > 0);
            }
            lemma_complete_grows(
                unsorted,
                results@,
                old(reader),
                pattern@,
                maps@,
                selection,
                name@,
                maps@.len() as int,
            );
        }
        assert forall|k: int| 0 <= k < results@.len() implies in_target(
            maps@,
            selection,
            name@,
            #[trigger] results@[k],
            n,
        ) by {
            assert(results@.contains(results@[k]));
            assert(results@.to_multiset().count(results@[k]) > 0);
            assert(unsorted.to_multiset().count(results@[k]) > 0);
            assert(unsorted.contains(results@[k]));
            let w = choose|w: int| 0 <= w < unsorted.len() && unsorted[w] == results@[k];
            assert(in_target(maps@, selection, name@, unsorted[w], n));
        }
        assert forall|k: int|
            0 <= k < results@.len() && all_known(
                old(reader),
                #[trigger] results@[k] as int,
                results@[k] + n,
            ) implies pattern_matches(
            pattern@,
            known_window(old(reader), results@[k] as int, n),
        ) by {
            assert(results@.contains(results@[k]));
            assert(results@.to_multiset().count(results@[k]) > 0);
            assert(unsorted.to_multiset().count(results@[k]) > 0);
            assert(unsorted.contains(results@[k]));
            let w = choose|w: int| 0 <= w < unsorted.len() && unsorted[w] == results@[k];
            assert(all_known(old(reader), unsorted[w] as int, unsorted[w] + n));
        }
    }
    Ok(results)
}

/// Whether `found` is what a strict scan of the selection gives for the
/// pattern text: the failure of the text where it is malformed, the failure
/// of the first visited region whose scan cannot start, else matches in
/// ascending order, none twice where the visited regions lie apart, each
/// inside a visited region, each a true match where the reader vouches for
/// its bytes, and none missing from a region that the reader vouches for in
/// full.
pub open spec fn is_scan_of<R: ReadProcessMemory>(
    found: Result<Vec<u64>, LimeError>,
    reader: &R,
    rs: Seq<ProcMemoryRegion>,
    selection: Selection,
    name: Seq<char>,
    text: Seq<char>,
) -> bool {
    let p = parsed_cells(text);
    if !parses(text) {
        found is Err && is_parse_of(text, Err(found->Err_0))
    } else {
        match found {
            Ok(v) => {
                &&& ascending(v@)
                &&& targets_apart(rs, selection, name) ==> strictly_ascending(v@)
                &&& windows_readable(v@, reader, p.len() as int)
                &&& all_in_targets(v@, rs, selection, name, p.len() as int)
                &&& sound_for(v@, reader, p)
                &&& p.len() <= 1024 * 1024 ==> complete_in_targets(
                    v@,
                    reader,
                    p,
                    rs,
                    selection,
                    name,
                    rs.len() as int,
                )
                &&& forall|j: int|
                    0 <= j < rs.len() && targeted(#[trigger] rs[j]@, selection, name) ==> scannable(
                        rs[j]@,
                        p.len() as int,
                    )
            },
            Err(LimeError::General(GeneralErrors::PatternIsEmpty(_))) => p.len() == 0 && exists|
                j: int,
            |
                0 <= j < rs.len() && targeted(#[trigger] rs[j]@, selection, name),
            Err(LimeError::MemAddr(MemAddrError::AddressOutOfBounds(_))) => p.len() > 0 && exists|
                j: int,
            |
                0 <= j < rs.len() && targeted(#[trigger] rs[j]@, selection, name) && rs[j].start
                    >= rs[j].end,
            Err(_) => false,
        }
    }
}

/// Whether `found` is what the scan of the addresses from `start` up to
/// `end` gives for the pattern text: the failure of the text where it is
/// malformed, an empty pattern or a start that is not below the end refused,
/// else the matches in ascending order without repeats, each inside the
/// range, each a true match where the reader vouches for its bytes, and none
/// missing where the reader vouches for the whole range.
pub open spec fn is_region_scan_of<R: ReadProcessMemory>(
    found: Result<Vec<u64>, LimeError>,
    reader: &R,
    start: u64,
    end: u64,
    text: Seq<char>,
) -> bool {
    let p = parsed_cells(text);
    if !parses(text) {
        found is Err && is_parse_of(text, Err(found->Err_0))
    } else {
        match found {
            Ok(v) => {
                &&& p.len() > 0
                &&& start < end
                &&& windows_in_range(v@, start as int, end as int, p.len() as int)
                &&& windows_readable(v@, reader, p.len() as int)
                &&& sound_for(v@, reader, p)
                &&& all_known(reader, start as int, end as int) && p.len() <= 1024 * 1024
                    ==> complete_for(v@, reader, p, start as int, end as int, end as int)
            },
            Err(LimeError::General(GeneralErrors::PatternIsEmpty(_))) => p.len() == 0,
            Err(LimeError::MemAddr(MemAddrError::AddressOutOfBounds(_))) => p.len() > 0 && start
                >= end,
            Err(_) => false,
        }
    }
}

/// Whether `found` is what a scan of every readable region gives for the
/// pattern text: nothing for a malformed text or an empty pattern, else the
/// matches, if there are any, in ascending order, none twice where the
/// readable regions lie apart, each inside a readable region, each a true match
/// where the reader vouches for its bytes, and none missing from a region
/// that the reader vouches for in full.
pub open spec fn is_full_scan_of<R: ReadProcessMemory>(
    found: Option<Vec<u64>>,
    reader: &R,
    rs: Seq<ProcMemoryRegion>,
    text: Seq<char>,
) -> bool {
    let p = parsed_cells(text);
    let v = match found {
        Some(v) => v@,
        None => Seq::<u64>::empty(),
    };
    &&& !parses(text) || p.len() == 0 ==> found is None
    &&& found is Some ==> v.len() > 0
    &&& ascending(v)
    &&& targets_apart(rs, Selection::Readable, Seq::<char>::empty()) ==> strictly_ascending(v)
    &&& windows_readable(v, reader, p.len() as int)
    &&& all_in_targets(v, rs, Selection::Readable, Seq::<char>::empty(), p.len() as int)
    &&& sound_for(v, reader, p)
    &&& parses(text) && 0 < p.len() <= 1024 * 1024 ==> complete_in_targets(
        v,
        reader,
        p,
        rs,
        Selection::Readable,
        Seq::<char>::empty(),
        rs.len() as int,
    )
}

/// Scans one region for the pattern that `pattern` writes.
pub fn scan_region_for_pattern<R: ReadProcessMemory>(
    reader: &mut R,
    region: &ProcMemoryRegion,
    pattern: &str,
) -> (found: Result<Vec<u64>, LimeError>)
    ensures
        forall|a: u64| final(reader).known_byte(a) == old(reader).known_byte(a),
        final(reader).layout() == old(reader).layout(),
        forall|a: u64| final(reader).refused(a) == old(reader).refused(a),
        byte_reads_added(
            old(reader).reads(),
            final(reader).reads(),
            region.start as int,
            region.end as int,
        ),
        found is Err ==> final(reader).reads() == old(reader).reads(),
        is_region_scan_of(found, old(reader), region.start, region.end, pattern@),
{
    proof {
        lemma_no_reads(reader.reads(), region.start as int, region.end as int);
    }
    let pattern = match Pattern::from_str(pattern) {
        Ok(p) => p,
        Err(e) => {
            return Err(e);
        },
    };
    let scanner = OffsetScanner::default();
    scanner.scan_range_for_pattern(reader, region.start, region.end, &pattern)
}

/// Scans the readable regions whose path contains `module_name`.
pub fn scan_module_for_pattern<R: ReadProcessMemory>(
    reader: &mut R,
    maps: &ProcMemoryMaps,
    module_name: &str,
    pattern: &str,
) -> (found: Result<Vec<u64>, LimeError>)
    ensures
        forall|a: u64| final(reader).known_byte(a) == old(reader).known_byte(a),
        final(reader).layout() == old(reader).layout(),
        forall|a: u64| final(reader).refused(a) == old(reader).refused(a),
        reads_in_targets(
            old(reader).reads(),
            final(reader).reads(),
            maps@,
            Selection::Module,
            module_name@,
        ),
        !parses(pattern@) ==> final(reader).reads() == old(reader).reads(),
        is_scan_of(found, old(reader), maps@, Selection::Module, module_name@, pattern@),
{
    proof {
        lemma_no_reads_in_targets(reader.reads(), maps@, Selection::Module, module_name@);
    }
    let pattern = match Pattern::from_str(pattern) {
        Ok(p) => p,
        Err(e) => {
            return Err(e);
        },
    };
    scan_selected(reader, maps, Selection::Module, module_name, &pattern, true)
}

/// Scans the regions of the heap.
pub fn scan_heap_for_pattern<R: ReadProcessMemory>(
    reader: &mut R,
    maps: &ProcMemoryMaps,
    pattern: &str,
) -> (found: Result<Vec<u64>, LimeError>)
    ensures
        forall|a: u64| final(reader).known_byte(a) == old(reader).known_byte(a),
        final(reader).layout() == old(reader).layout(),
        forall|a: u64| final(reader).refused(a) == old(reader).refused(a),
        reads_in_targets(
            old(reader).reads(),
            final(reader).reads(),
            maps@,
            Selection::Heap,
            Seq::<char>::empty(),
        ),
        !parses(pattern@) ==> final(reader).reads() == old(reader).reads(),
        is_scan_of(found, old(reader), maps@, Selection::Heap, Seq::<char>::empty(), pattern@),
{
    proof {
        lemma_no_reads_in_targets(reader.reads(), maps@, Selection::Heap, Seq::<char>::empty());
    }
    let pattern = match Pattern::from_str(pattern) {
        Ok(p) => p,
        Err(e) => {
            return Err(e);
        },
    };
    let found = scan_selected(reader, maps, Selection::Heap, "", &pattern, true);
    proof {
        reveal_strlit("");
        assert(""@ =~= Seq::<char>::empty());
    }
    found
}

/// Scans every readable region. A malformed pattern text, and a scan without
/// a match, give `None`; a region whose scan cannot start is passed over.
pub fn scan_for_pattern<R: ReadProcessMemory>(
    reader: &mut R,
    maps: &ProcMemoryMaps,
    pattern: &str,
) -> (found: Option<Vec<u64>>)
    ensures
        forall|a: u64| final(reader).known_byte(a) == old(reader).known_byte(a),
        final(reader).layout() == old(reader).layout(),
        forall|a: u64| final(reader).refused(a) == old(reader).refused(a),
        reads_in_targets(
            old(reader).reads(),
            final(reader).reads(),
            maps@,
            Selection::Readable,
            Seq::<char>::empty(),
        ),
        !parses(pattern@) ==> final(reader).reads() == old(reader).reads(),
        is_full_scan_of(found, old(reader), maps@, pattern@),
{
    proof {
        lemma_no_reads_in_targets(
            reader.reads(),
            maps@,
            Selection::Readable,
            Seq::<char>::empty(),
        );
    }
    let pattern = match Pattern::from_str(pattern) {
        Ok(p) => p,
        Err(_) => {
            assert(all_in_targets(
                Seq::<u64>::empty(),
                maps@,
                Selection::Readable,
                Seq::<char>::empty(),
                parsed_cells(pattern@).len() as int,
            ));
            return None;
        },
    };
    proof {
        reveal_strlit("");
        assert(""@ =~= Seq::<char>::empty());
    }
    match scan_selected(reader, maps, Selection::Readable, "", &pattern, false) {
        Ok(all_results) => {
            if all_results.len() == 0 {
                assert(all_results@ =~= Seq::<u64>::empty());
                None
            } else {
                Some(all_results)
            }
        },
        Err(_) => None,
    }
}

} // verus!
