//! The memory map of a process: its regions in order, with lookups by
//! address and by name and the checks that gate an access.

use vstd::prelude::*;
use vstd::string::*;
use vstd::slice::slice_subrange;
use crate::errors::{LimeError, MemAddrError};
use crate::region::{
    is_line_result,
    line_outcome,
    parse_line_chars,
    LineOutcome,
    ProcMemoryRegion,
    RegionView,
};
use crate::text::{
    chars_of,
    decimal_text,
    digits_of,
    find_char,
    find_from,
    hex_of,
    hex_text,
    lemma_find_from,
};

verus! {

/// How a region's path is held against a name.
#[derive(Clone, Copy, Debug, PartialEq, Eq, Structural)]
pub enum NameTest {
    Contains,
    Exact,
    Prefix,
    Suffix,
}

/// The kinds of access that a region may grant.
#[derive(Clone, Copy, Debug, PartialEq, Eq, Structural)]
pub enum Access {
    Read,
    Write,
    Execute,
}

/// Whether `needle` stands in `hay` from index `i` on.
pub open spec fn occurs_at(hay: Seq<char>, needle: Seq<char>, i: int) -> bool {
    &&& 0 <= i
    &&& i + needle.len() <= hay.len()
    &&& hay.subrange(i, i + needle.len()) == needle
}

/// Whether the path `hay` passes the test against `needle`.
pub open spec fn name_matches(test: NameTest, hay: Seq<char>, needle: Seq<char>) -> bool {
    match test {
        NameTest::Contains => exists|i: int| occurs_at(hay, needle, i),
        NameTest::Exact => hay == needle,
        NameTest::Prefix => occurs_at(hay, needle, 0),
        NameTest::Suffix => occurs_at(hay, needle, hay.len() - needle.len()),
    }
}

/// Whether the region has a path, and the path passes the test.
pub open spec fn region_named(r: RegionView, test: NameTest, needle: Seq<char>) -> bool {
    r.pathname is Some && name_matches(test, r.pathname->0, needle)
}

/// The regions of `rs` whose path passes the test, in order.
pub open spec fn selected(rs: Seq<ProcMemoryRegion>, test: NameTest, needle: Seq<char>) -> Seq<
    ProcMemoryRegion,
> {
    rs.filter(|r: ProcMemoryRegion| region_named(r@, test, needle))
}

/// Whether the region is an executable part of the module `name`.
pub open spec fn is_module_code(r: RegionView, name: Seq<char>) -> bool {
    region_named(r, NameTest::Contains, name) && r.executable()
}

/// Whether `least` is the smallest key among the executable regions of the
/// module `name`, and `None` where there is no such region.
pub open spec fn is_least_key(
    rs: Seq<ProcMemoryRegion>,
    name: Seq<char>,
    key: spec_fn(RegionView) -> int,
    least: Option<u64>,
) -> bool {
    match least {
        None => forall|i: int| 0 <= i < rs.len() ==> !is_module_code(#[trigger] rs[i]@, name),
        Some(m) => {
            &&& exists|i: int|
                0 <= i < rs.len() && is_module_code(#[trigger] rs[i]@, name) && key(rs[i]@) == m
            &&& forall|i: int|
                0 <= i < rs.len() && is_module_code(#[trigger] rs[i]@, name) ==> m <= key(rs[i]@)
        },
    }
}

/// Whether the region grants the access.
pub open spec fn permits(r: RegionView, access: Access) -> bool {
    match access {
        Access::Read => r.readable(),
        Access::Write => r.writeable(),
        Access::Execute => r.executable(),
    }
}

/// The address of the last byte of a value of `size` bytes at `addr`, held at
/// the highest address where it would lie beyond.
pub open spec fn last_address(addr: u64, size: usize) -> int {
    if addr + size - 1 > u64::MAX {
        u64::MAX as int
    } else {
        addr + size - 1
    }
}

/// Index of the first region at or after index `i` that contains `addr`, or
/// the number of regions.
pub open spec fn first_containing(rs: Seq<ProcMemoryRegion>, addr: u64, i: int) -> int
    decreases rs.len() - i,
{
    if 0 <= i < rs.len() && !rs[i]@.contains(addr as int) {
        first_containing(rs, addr, i + 1)
    } else {
        i
    }
}

/// Where the search for a region ends: at the first that contains the
/// address, with none before it.
proof fn lemma_first_containing(rs: Seq<ProcMemoryRegion>, addr: u64, i: int)
    requires
        0 <= i <= rs.len(),
    ensures
        i <= first_containing(rs, addr, i) <= rs.len(),
        first_containing(rs, addr, i) < rs.len() ==> rs[first_containing(rs, addr, i)]@.contains(
            addr as int,
        ),
        forall|k: int| i <= k < first_containing(rs, addr, i) ==> !(#[trigger] rs[k])@.contains(
            addr as int,
        ),
    decreases rs.len() - i,
{
    if i < rs.len() && !rs[i]@.contains(addr as int) {
        lemma_first_containing(rs, addr, i + 1);
    }
}

/// How a request for access ends.
#[derive(Clone, Copy, Debug, PartialEq, Eq, Structural)]
pub enum AccessOutcome {
    /// The first region that contains the address grants the access and
    /// contains the last byte too.
    Allowed,
    /// No region contains the address.
    Unmapped,
    /// The first region that contains the address does not grant the access.
    Denied,
    /// The value extends beyond that region.
    Straddles,
}

/// How a request for `access` to `size` bytes at `addr` ends.
pub open spec fn access_outcome(
    rs: Seq<ProcMemoryRegion>,
    addr: u64,
    size: usize,
    access: Access,
) -> AccessOutcome {
    let k = first_containing(rs, addr, 0);
    if k >= rs.len() {
        AccessOutcome::Unmapped
    } else if !permits(rs[k]@, access) {
        AccessOutcome::Denied
    } else if !rs[k]@.contains(last_address(addr, size)) {
        AccessOutcome::Straddles
    } else {
        AccessOutcome::Allowed
    }
}

/// Whether `checked` reports the outcome: an address out of bounds where no
/// region contains the address or the value extends beyond it, no permission
/// where the region denies the access.
pub open spec fn reports(checked: Result<(), LimeError>, outcome: AccessOutcome) -> bool {
    match checked {
        Ok(()) => outcome == AccessOutcome::Allowed,
        Err(LimeError::MemAddr(MemAddrError::AddressOutOfBounds(_))) => outcome
            == AccessOutcome::Unmapped || outcome == AccessOutcome::Straddles,
        Err(LimeError::MemAddr(MemAddrError::NoPermission(_))) => outcome == AccessOutcome::Denied,
        Err(_) => false,
    }
}

/// `lead`, then the bounds of the region in hexadecimal with a dash between.
pub open spec fn bounds_text(lead: Seq<char>, r: RegionView) -> Seq<char> {
    lead + hex_of(r.start) + "-"@ + hex_of(r.end)
}

/// How the text of a denied access begins.
pub open spec fn denied_lead(access: Access) -> Seq<char> {
    match access {
        Access::Read => "region is read protected: "@,
        Access::Write => "region is write protected: "@,
        Access::Execute => "region is execute protected: "@,
    }
}

/// How the text of an access beyond its region begins.
pub open spec fn beyond_lead(access: Access) -> Seq<char> {
    match access {
        Access::Read => "Read from "@,
        Access::Write => "write from "@,
        Access::Execute => "execute from "@,
    }
}

/// The text of an access that extends beyond its region: the address, the
/// size, and the bounds of the region.
pub open spec fn beyond_text(access: Access, addr: u64, size: usize, r: RegionView) -> Seq<char> {
    beyond_lead(access) + hex_of(addr) + " (size "@ + digits_of(size as nat, 10) + bounds_text(
        ") extends beyond region boundary ("@,
        r,
    ) + ")"@
}

/// The text that comes with a refused access: the address where no region
/// contains it, else the bounds of the region that refuses.
pub open spec fn refusal_text(
    rs: Seq<ProcMemoryRegion>,
    addr: u64,
    size: usize,
    access: Access,
) -> Seq<char> {
    let k = first_containing(rs, addr, 0);
    match access_outcome(rs, addr, size, access) {
        AccessOutcome::Unmapped => hex_of(addr),
        AccessOutcome::Denied => bounds_text(denied_lead(access), rs[k]@),
        AccessOutcome::Straddles => beyond_text(access, addr, size, rs[k]@),
        AccessOutcome::Allowed => Seq::empty(),
    }
}

/// Whether a refusal carries the text `text`.
pub open spec fn explains(checked: Result<(), LimeError>, text: Seq<char>) -> bool {
    match checked {
        Err(LimeError::MemAddr(MemAddrError::AddressOutOfBounds(m))) => m@ == text,
        Err(LimeError::MemAddr(MemAddrError::NoPermission(m))) => m@ == text,
        _ => true,
    }
}

/// The regions that the lines of `s` from index `i` on write, in order, or
/// `None` where one of these lines holds a number that cannot be read.
pub open spec fn map_outcome_from(s: Seq<char>, i: int) -> Option<Seq<RegionView>>
    decreases s.len() + 1 - i,
    when 0 <= i
    via map_outcome_decreases
{
    if i >= s.len() {
        Some(Seq::empty())
    } else {
        let e = find_from(s, '\n', i);
        match line_outcome(s.subrange(i, e)) {
            LineOutcome::Broken => None,
            LineOutcome::Skipped => map_outcome_from(s, e + 1),
            LineOutcome::Region(r) => match map_outcome_from(s, e + 1) {
                Some(rest) => Some(seq![r] + rest),
                None => None,
            },
        }
    }
}

#[via_fn]
proof fn map_outcome_decreases(s: Seq<char>, i: int) {
    lemma_find_from(s, '\n', i);
}

/// The regions that a map text writes, line by line.
pub open spec fn map_outcome(s: Seq<char>) -> Option<Seq<RegionView>> {
    map_outcome_from(s, 0)
}

/// `found` with the regions `acc` in front.
pub open spec fn after(acc: Seq<RegionView>, found: Option<Seq<RegionView>>) -> Option<
    Seq<RegionView>,
> {
    match found {
        Some(rest) => Some(acc + rest),
        None => None,
    }
}

/// Whether `needle` stands in `hay` from index `i` on.
fn stands_at(hay: &[char], needle: &[char], i: usize) -> (holds: bool)
    requires
        i + needle.len() <= hay.len(),
    ensures
        holds == occurs_at(hay@, needle@, i as int),
{
    let n: usize = needle.len();
    let mut j: usize = 0;
    while j < n
        invariant
            n == needle.len(),
            i + n <= hay.len(),
            0 <= j <= n,
            forall|k: int| 0 <= k < j ==> hay[i + k] == needle[k],
        decreases n - j,
    {
        if hay[i + j] != needle[j] {
            assert(hay@.subrange(i as int, i + n)[j as int] != needle@[j as int]);
            return false;
        }
        j += 1;
    }
    assert(hay@.subrange(i as int, i + n) =~= needle@);
    true
}

/// Whether the path `hay` passes the test against `needle`.
pub fn name_test(test: NameTest, hay: &[char], needle: &[char]) -> (passes: bool)
    ensures
        passes == name_matches(test, hay@, needle@),
{
    let h: usize = hay.len();
    let n: usize = needle.len();
    if n > h {
        assert(hay@ != needle@);
        return false;
    }
    match test {
        NameTest::Exact => {
            if h != n {
                assert(hay@ != needle@);
                false
            } else {
                assert(hay@.subrange(0, n as int) =~= hay@);
                stands_at(hay, needle, 0)
            }
        },
        NameTest::Prefix => stands_at(hay, needle, 0),
        NameTest::Suffix => stands_at(hay, needle, h - n),
        NameTest::Contains => {
            let mut i: usize = 0;
            while i < h - n
                invariant
                    test == NameTest::Contains,
                    h == hay.len(),
                    n == needle.len(),
                    n <= h,
                    0 <= i <= h - n,
                    forall|k: int| 0 <= k < i ==> !occurs_at(hay@, needle@, k),
                decreases h - n - i,
            {
                if stands_at(hay, needle, i) {
                    return true;
                }
                i += 1;
            }
            stands_at(hay, needle, h - n)
        },
    }
}

/// Whether the region has a path that passes the test against `needle`.
pub fn region_passes(region: &ProcMemoryRegion, test: NameTest, needle: &[char]) -> (passes: bool)
    ensures
        passes == region_named(region@, test, needle@),
{
    match &region.pathname {
        Some(path) => {
            let hay = chars_of(path.as_str());
            name_test(test, hay.as_slice(), needle)
        },
        None => false,
    }
}

/// Whether the region contains the last byte of a value of `size` bytes at
/// `addr`.
fn holds_last(region: &ProcMemoryRegion, addr: u64, size: usize) -> (holds: bool)
    ensures
        holds == region@.contains(last_address(addr, size)),
{
    if size == 0 {
        addr > 0 && region.contains(addr - 1)
    } else {
        let extra: u64 = (size - 1) as u64;
        let last: u64 = if addr > u64::MAX - extra {
            u64::MAX
        } else {
            addr + extra
        };
        region.contains(last)
    }
}

/// `lead`, then the bounds of the region in hexadecimal.
fn with_bounds(lead: &str, region: &ProcMemoryRegion) -> (text: String)
    ensures
        text@ == bounds_text(lead@, region@),
{
    let mut text = String::from_str(lead);
    text.append(hex_text(region.start).as_str());
    text.append("-");
    text.append(hex_text(region.end).as_str());
    text
}

/// Says that `size` bytes at `addr` extend beyond the region.
fn beyond_region(access: Access, addr: u64, size: usize, region: &ProcMemoryRegion) -> (text:
    String)
    ensures
        text@ == beyond_text(access, addr, size, region@),
{
    let lead = match access {
        Access::Read => "Read from ",
        Access::Write => "write from ",
        Access::Execute => "execute from ",
    };
    let mut text = String::from_str(lead);
    text.append(hex_text(addr).as_str());
    text.append(" (size ");
    text.append(decimal_text(size as u64).as_str());
    text.append(with_bounds(") extends beyond region boundary (", region).as_str());
    text.append(")");
    text
}

/// The memory map of a process as it was when it was sampled.
#[derive(Clone, Debug)]
pub struct ProcMemoryMaps {
    regions: Vec<ProcMemoryRegion>,
}

impl View for ProcMemoryMaps {
    type V = Seq<ProcMemoryRegion>;

    /// The regions in the order of the map.
    closed spec fn view(&self) -> Seq<ProcMemoryRegion> {
        self.regions@
    }
}

impl ProcMemoryMaps {
    /// The regions as plain values.
    pub open spec fn records(&self) -> Seq<RegionView> {
        self@.map_values(|r: ProcMemoryRegion| r@)
    }

    /// Reads a whole map text: one region per line, lines that hold no
    /// region passed over, the whole refused where a number cannot be read.
    pub fn parse(content: &str) -> (parsed: Result<ProcMemoryMaps, LimeError>)
        ensures
            match parsed {
                Ok(maps) => map_outcome(content@) == Some(maps.records()),
                Err(LimeError::MemAddr(MemAddrError::ParseError(_))) => map_outcome(content@)
                    is None,
                Err(_) => false,
            },
    {
        let chars = chars_of(content);
        let n: usize = chars.len();
        let mut regions: Vec<ProcMemoryRegion> = Vec::new();
        let mut i: usize = 0;
        while i < n
            invariant
                chars@ == content@,
                n == chars.len(),
                0 <= i <= n,
                map_outcome(content@) == after(
                    regions@.map_values(|r: ProcMemoryRegion| r@),
                    map_outcome_from(content@, i as int),
                ),
            decreases n - i,
        {
            let e: usize = find_char(chars.as_slice(), '\n', i);
            let ghost acc = regions@.map_values(|r: ProcMemoryRegion| r@);
            let ghost rest = map_outcome_from(content@, e + 1);
            match parse_line_chars(slice_subrange(chars.as_slice(), i, e)) {
                Err(e) => {
                    return Err(e);
                },
                Ok(None) => {},
                Ok(Some(region)) => {
                    proof {
                        let now = regions@.push(region).map_values(|r: ProcMemoryRegion| r@);
                        assert(now =~= acc.push(region@));
                        if rest is Some {
                            assert(acc + (seq![region@] + rest->0) =~= now + rest->0);
                        }
                    }
                    regions.push(region);
                },
            }
            if e < n {
                i = e + 1;
            } else {
                proof {
                    assert(map_outcome_from(content@, e + 1) == Some(Seq::<RegionView>::empty()));
                }
                i = n;
            }
        }
        proof {
            let acc = regions@.map_values(|r: ProcMemoryRegion| r@);
            assert(acc + Seq::<RegionView>::empty() =~= acc);
        }
        Ok(ProcMemoryMaps { regions })
    }

    /// A copy of the map, to walk while the handle that owns the map is busy.
    pub fn duplicate(&self) -> (copy: ProcMemoryMaps)
        ensures
            copy@ == self@,
    {
        let mut regions: Vec<ProcMemoryRegion> = Vec::new();
        let mut i: usize = 0;
        while i < self.regions.len()
            invariant
                0 <= i <= self.regions.len(),
                regions@ == self.regions@.take(i as int),
            decreases self.regions.len() - i,
        {
            let r = &self.regions[i];
            let pathname = match &r.pathname {
                Some(p) => Some(p.clone()),
                None => None,
            };
            let copy = ProcMemoryRegion {
                start: r.start,
                end: r.end,
                perm: r.perm.clone(),
                offset: r.offset,
                dev: r.dev.clone(),
                inode: r.inode,
                pathname,
            };
            assert(copy == self.regions@[i as int]);
            regions.push(copy);
            assert(regions@ =~= self.regions@.take(i + 1));
            i += 1;
        }
        assert(self.regions@.take(i as int) =~= self.regions@);
        ProcMemoryMaps { regions }
    }

    /// Reads one line of a map text.
    pub fn parse_maps_line(line: &str) -> (parsed: Result<Option<ProcMemoryRegion>, LimeError>)
        ensures
            is_line_result(line@, parsed),
    {
        let chars = chars_of(line);
        parse_line_chars(chars.as_slice())
    }

    /// The first region that contains `addr`.
    pub fn find_region_by_addr(&self, addr: u64) -> (found: Option<&ProcMemoryRegion>)
        ensures
            match found {
                Some(region) => first_containing(self@, addr, 0) < self@.len() && *region
                    == self@[first_containing(self@, addr, 0)],
                None => first_containing(self@, addr, 0) >= self@.len(),
            },
    {
        let mut i: usize = 0;
        while i < self.regions.len()
            invariant
                0 <= i <= self.regions.len(),
                first_containing(self@, addr, 0) == first_containing(self@, addr, i as int),
            decreases self.regions.len() - i,
        {
            if self.regions[i].contains(addr) {
                return Some(&self.regions[i]);
            }
            i += 1;
        }
        None
    }

    /// Decides a request for `access` to `size` bytes at `addr`.
    pub fn check_access(&self, addr: u64, size: usize, access: Access) -> (checked: Result<
        (),
        LimeError,
    >)
        ensures
            reports(checked, access_outcome(self@, addr, size, access)),
            explains(checked, refusal_text(self@, addr, size, access)),
    {
        match self.find_region_by_addr(addr) {
            Some(region) => {
                let granted: bool = match access {
                    Access::Read => region.is_readable(),
                    Access::Write => region.is_writeable(),
                    Access::Execute => region.is_executable(),
                };
                if !granted {
                    let lead = match access {
                        Access::Read => "region is read protected: ",
                        Access::Write => "region is write protected: ",
                        Access::Execute => "region is execute protected: ",
                    };
                    return Err(
                        LimeError::MemAddr(MemAddrError::NoPermission(with_bounds(lead, region))),
                    );
                }
                if !holds_last(region, addr, size) {
                    let text = beyond_region(access, addr, size, region);
                    return Err(LimeError::MemAddr(MemAddrError::AddressOutOfBounds(text)));
                }
                Ok(())
            },
            None => Err(LimeError::MemAddr(MemAddrError::AddressOutOfBounds(hex_text(addr)))),
        }
    }

    /// Whether `size` bytes at `addr` may be read: the first region that
    /// contains `addr` is readable and contains the last byte too.
    pub fn can_read(&self, addr: u64, size: usize) -> (checked: Result<(), LimeError>)
        ensures
            reports(checked, access_outcome(self@, addr, size, Access::Read)),
            explains(checked, refusal_text(self@, addr, size, Access::Read)),
    {
        self.check_access(addr, size, Access::Read)
    }

    /// Whether `size` bytes at `addr` may be written.
    pub fn can_write(&self, addr: u64, size: usize) -> (checked: Result<(), LimeError>)
        ensures
            reports(checked, access_outcome(self@, addr, size, Access::Write)),
            explains(checked, refusal_text(self@, addr, size, Access::Write)),
    {
        self.check_access(addr, size, Access::Write)
    }

    /// Whether the byte at `addr` may be executed.
    pub fn can_execute(&self, addr: u64) -> (checked: Result<(), LimeError>)
        ensures
            reports(checked, access_outcome(self@, addr, 1, Access::Execute)),
            explains(checked, refusal_text(self@, addr, 1, Access::Execute)),
            !(checked matches Err(LimeError::MemAddr(MemAddrError::AddressOutOfBounds(_))))
                || first_containing(self@, addr, 0) >= self@.len(),
    {
        proof {
            lemma_first_containing(self@, addr, 0);
        }
        self.check_access(addr, 1, Access::Execute)
    }

    /// The regions in the order of the map.
    pub fn get_regions(&self) -> (regions: &[ProcMemoryRegion])
        ensures
            regions@ == self@,
    {
        self.regions.as_slice()
    }

    /// The regions whose path passes the test against `needle`, in order.
    pub fn find_regions(&self, test: NameTest, needle: &str) -> (found: Vec<&ProcMemoryRegion>)
        ensures
            found@.map_values(|r: &ProcMemoryRegion| *r) == selected(self@, test, needle@),
    {
        let wanted = chars_of(needle);
        let mut found: Vec<&ProcMemoryRegion> = Vec::new();
        let ghost keep = |r: ProcMemoryRegion| region_named(r@, test, needle@);
        let mut i: usize = 0;
        assert(self@.take(0).filter(keep) =~= Seq::<ProcMemoryRegion>::empty()) by {
            reveal(Seq::filter);
        }
        while i < self.regions.len()
            invariant
                0 <= i <= self.regions.len(),
                wanted@ == needle@,
                keep == (|r: ProcMemoryRegion| region_named(r@, test, needle@)),
                found@.map_values(|r: &ProcMemoryRegion| *r) == self@.take(i as int).filter(keep),
            decreases self.regions.len() - i,
        {
            let region = &self.regions[i];
            let ghost before = found@.map_values(|r: &ProcMemoryRegion| *r);
            proof {
                reveal(Seq::filter);
                assert(self@.take(i + 1).drop_last() =~= self@.take(i as int));
                assert(self@.take(i + 1).last() == self@[i as int]);
            }
            if region_passes(region, test, wanted.as_slice()) {
                found.push(region);
                assert(found@.map_values(|r: &ProcMemoryRegion| *r) =~= before.push(*region));
            }
            i += 1;
        }
        assert(self@.take(i as int) =~= self@);
        found
    }

    /// The regions whose path contains `name`.
    pub fn find_regions_by_name(&self, name: &str) -> (found: Vec<&ProcMemoryRegion>)
        ensures
            found@.map_values(|r: &ProcMemoryRegion| *r) == selected(
                self@,
                NameTest::Contains,
                name@,
            ),
    {
        self.find_regions(NameTest::Contains, name)
    }

    /// The regions whose path is `name`.
    pub fn find_regions_by_name_exact(&self, name: &str) -> (found: Vec<&ProcMemoryRegion>)
        ensures
            found@.map_values(|r: &ProcMemoryRegion| *r) == selected(
                self@,
                NameTest::Exact,
                name@,
            ),
    {
        self.find_regions(NameTest::Exact, name)
    }

    /// The regions whose path begins with `prefix`.
    pub fn find_regions_by_prefix(&self, prefix: &str) -> (found: Vec<&ProcMemoryRegion>)
        ensures
            found@.map_values(|r: &ProcMemoryRegion| *r) == selected(
                self@,
                NameTest::Prefix,
                prefix@,
            ),
    {
        self.find_regions(NameTest::Prefix, prefix)
    }

    /// The regions whose path ends with `suffix`.
    pub fn find_regions_by_suffix(&self, suffix: &str) -> (found: Vec<&ProcMemoryRegion>)
        ensures
            found@.map_values(|r: &ProcMemoryRegion| *r) == selected(
                self@,
                NameTest::Suffix,
                suffix@,
            ),
    {
        self.find_regions(NameTest::Suffix, suffix)
    }

    /// The regions of the heap: those whose path is `[heap]`.
    pub fn get_heap_regions(&self) -> (found: Vec<&ProcMemoryRegion>)
        ensures
            found@.map_values(|r: &ProcMemoryRegion| *r) == selected(
                self@,
                NameTest::Exact,
                "[heap]"@,
            ),
    {
        self.find_regions_by_name_exact("[heap]")
    }

    /// The regions of the stacks: those whose path begins with `[stack`,
    /// the main thread's and each other thread's.
    pub fn get_stack_regions(&self) -> (found: Vec<&ProcMemoryRegion>)
        ensures
            found@.map_values(|r: &ProcMemoryRegion| *r) == selected(
                self@,
                NameTest::Prefix,
                "[stack"@,
            ),
    {
        self.find_regions_by_prefix("[stack")
    }

    /// The lowest start among the executable regions whose path contains
    /// `module_name`.
    pub fn get_module_base(&self, module_name: &str) -> (base: Option<u64>)
        ensures
            is_least_key(self@, module_name@, |r: RegionView| r.start as int, base),
    {
        let wanted = chars_of(module_name);
        let ghost key = |r: RegionView| r.start as int;
        let mut base: Option<u64> = None;
        let mut i: usize = 0;
        while i < self.regions.len()
            invariant
                0 <= i <= self.regions.len(),
                wanted@ == module_name@,
                key == (|r: RegionView| r.start as int),
                is_least_key(self@.take(i as int), module_name@, key, base),
            decreases self.regions.len() - i,
        {
            let region = &self.regions[i];
            let ghost seen = self@.take(i as int);
            let ghost now = self@.take(i + 1);
            let ghost earlier = base;
            if region_passes(region, NameTest::Contains, wanted.as_slice())
                && region.is_executable() {
                let lower: bool = match base {
                    Some(m) => region.start < m,
                    None => true,
                };
                if lower {
                    base = Some(region.start);
                }
            }
            proof {
                lemma_least_key_step(self@, i as int, module_name@, key, earlier, base);
            }
            i += 1;
        }
        assert(self@.take(i as int) =~= self@);
        base
    }

    /// The lowest probable load address among the executable regions whose
    /// path contains `module_name`: a region's start less its file offset.
    pub fn get_module_probable_load_base(&self, module_name: &str) -> (base: Option<u64>)
        requires
            forall|i: int|
                0 <= i < self@.len() && is_module_code(#[trigger] self@[i]@, module_name@)
                    ==> self@[i].offset <= self@[i].start,
        ensures
            is_least_key(self@, module_name@, |r: RegionView| r.start - r.offset, base),
    {
        let wanted = chars_of(module_name);
        let ghost key = |r: RegionView| r.start - r.offset;
        let mut base: Option<u64> = None;
        let mut i: usize = 0;
        while i < self.regions.len()
            invariant
                0 <= i <= self.regions.len(),
                wanted@ == module_name@,
                key == (|r: RegionView| r.start - r.offset),
                forall|i: int|
                    0 <= i < self@.len() && is_module_code(#[trigger] self@[i]@, module_name@)
                        ==> self@[i].offset <= self@[i].start,
                is_least_key(self@.take(i as int), module_name@, key, base),
            decreases self.regions.len() - i,
        {
            let region = &self.regions[i];
            let ghost earlier = base;
            if region_passes(region, NameTest::Contains, wanted.as_slice())
                && region.is_executable() {
                assert(is_module_code(self@[i as int]@, module_name@));
                let load: u64 = region.start - region.offset;
                let lower: bool = match base {
                    Some(m) => load < m,
                    None => true,
                };
                if lower {
                    base = Some(load);
                }
            }
            proof {
                lemma_least_key_step(self@, i as int, module_name@, key, earlier, base);
            }
            i += 1;
        }
        assert(self@.take(i as int) =~= self@);
        base
    }
}

/// The least key over the first `i` regions becomes the least key over one
/// region more by taking region `i` into account.
proof fn lemma_least_key_step(
    rs: Seq<ProcMemoryRegion>,
    i: int,
    name: Seq<char>,
    key: spec_fn(RegionView) -> int,
    earlier: Option<u64>,
    now: Option<u64>,
)
    requires
        0 <= i < rs.len(),
        is_least_key(rs.take(i), name, key, earlier),
        if is_module_code(rs[i]@, name) && (earlier is None || key(rs[i]@) < earlier->0) {
            now is Some && now->0 == key(rs[i]@)
        } else {
            now == earlier
        },
    ensures
        is_least_key(rs.take(i + 1), name, key, now),
{
    let seen = rs.take(i);
    let next = rs.take(i + 1);
    assert forall|k: int| 0 <= k < i implies next[k] == seen[k] by {}
    assert(next[i] == rs[i]);
    match now {
        None => {
            assert forall|k: int| 0 <= k < next.len() implies !is_module_code(
                #[trigger] next[k]@,
                name,
            ) by {
                if k < i {
                    assert(!is_module_code(seen[k]@, name));
                }
            }
        },
        Some(m) => {
            if is_module_code(rs[i]@, name) && (earlier is None || key(rs[i]@) < earlier->0) {
                assert(is_module_code(next[i]@, name) && key(next[i]@) == m);
            } else {
                let w = choose|w: int|
                    0 <= w < seen.len() && is_module_code(#[trigger] seen[w]@, name) && key(
                        seen[w]@,
                    ) == m;
                assert(is_module_code(next[w]@, name) && key(next[w]@) == m);
            }
            assert forall|k: int|
                0 <= k < next.len() && is_module_code(#[trigger] next[k]@, name) implies m <= key(
                next[k]@,
            ) by {
                if k < i {
                    assert(is_module_code(seen[k]@, name));
                    if earlier is Some {
                        assert(earlier->0 <= key(seen[k]@));
                    }
                }
            }
        },
    }
}

/// An access that is allowed has a region that grants it and contains the
/// first and the last byte of the value.
pub proof fn law_allowed_access_has_region(
    rs: Seq<ProcMemoryRegion>,
    addr: u64,
    size: usize,
    access: Access,
)
    requires
        access_outcome(rs, addr, size, access) == AccessOutcome::Allowed,
    ensures
        exists|i: int|
            0 <= i < rs.len() && permits(#[trigger] rs[i]@, access) && rs[i]@.contains(addr as int)
                && rs[i]@.contains(last_address(addr, size)),
{
    lemma_first_containing(rs, addr, 0);
    let k = first_containing(rs, addr, 0);
    assert(permits(rs[k]@, access) && rs[k]@.contains(addr as int));
}

/// Where no two regions contain the address, an access is allowed exactly
/// when some region grants it and contains the first and the last byte of the
/// value.
pub proof fn law_access_gate(rs: Seq<ProcMemoryRegion>, addr: u64, size: usize, access: Access)
    requires
        forall|i: int, j: int|
            0 <= i < j < rs.len() ==> !(rs[i]@.contains(addr as int) && rs[j]@.contains(
                addr as int,
            )),
    ensures
        access_outcome(rs, addr, size, access) == AccessOutcome::Allowed <==> exists|i: int|
            0 <= i < rs.len() && permits(#[trigger] rs[i]@, access) && rs[i]@.contains(addr as int)
                && rs[i]@.contains(last_address(addr, size)),
{
    lemma_first_containing(rs, addr, 0);
    let k = first_containing(rs, addr, 0);
    if access_outcome(rs, addr, size, access) == AccessOutcome::Allowed {
        law_allowed_access_has_region(rs, addr, size, access);
    }
    if exists|i: int|
        0 <= i < rs.len() && permits(#[trigger] rs[i]@, access) && rs[i]@.contains(addr as int)
            && rs[i]@.contains(last_address(addr, size)) {
        let i = choose|i: int|
            0 <= i < rs.len() && permits(#[trigger] rs[i]@, access) && rs[i]@.contains(addr as int)
                && rs[i]@.contains(last_address(addr, size));
        if k > i {
            assert(!rs[i]@.contains(addr as int));
        }
        if k < i {
            assert(rs[k]@.contains(addr as int));
        }
        assert(k == i);
    }
}

} // verus!
