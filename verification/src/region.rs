//! One entry of a process's memory map, and the line of text that writes it.

use vstd::prelude::*;
use vstd::string::*;
use vstd::slice::slice_subrange;
use crate::errors::{LimeError, MemAddrError};
use crate::text::{
    is_space,
    all_words,
    digits_of,
    is_word,
    law_join_then_split,
    law_number_reads_back,
    lemma_digits_of,
    find_char,
    find_from,
    join_spaced,
    law_split_ignores_layout,
    lemma_find_from,
    parse_u64,
    parse_u64_spec,
    spans_text,
    split_tokens,
    text_between,
    text_of,
    tokens,
};

verus! {

/// A range of virtual addresses with uniform permissions and backing.
#[derive(Clone, Debug)]
pub struct ProcMemoryRegion {
    pub start: u64,
    pub end: u64,
    pub perm: String,
    pub offset: u64,
    pub dev: String,
    pub inode: u64,
    pub pathname: Option<String>,
}

/// A region as plain values.
pub ghost struct RegionView {
    pub start: u64,
    pub end: u64,
    pub perm: Seq<char>,
    pub offset: u64,
    pub dev: Seq<char>,
    pub inode: u64,
    pub pathname: Option<Seq<char>>,
}

impl View for ProcMemoryRegion {
    type V = RegionView;

    open spec fn view(&self) -> RegionView {
        RegionView {
            start: self.start,
            end: self.end,
            perm: self.perm@,
            offset: self.offset,
            dev: self.dev@,
            inode: self.inode,
            pathname: match self.pathname {
                Some(p) => Some(p@),
                None => None,
            },
        }
    }
}

impl RegionView {
    /// Whether `addr` lies in the region, both bounds included.
    pub open spec fn contains(self, addr: int) -> bool {
        self.start <= addr <= self.end
    }

    /// Whether the permission token grants reading.
    pub open spec fn readable(self) -> bool {
        self.perm.len() > 0 && self.perm[0] == 'r'
    }

    /// Whether the permission token grants writing.
    pub open spec fn writeable(self) -> bool {
        self.perm.len() > 1 && self.perm[1] == 'w'
    }

    /// Whether the permission token grants execution.
    pub open spec fn executable(self) -> bool {
        self.perm.len() > 2 && self.perm[2] == 'x'
    }
}

/// Whether the token at position `at` of a permission text is `want`.
fn perm_is(perm: &String, at: usize, want: char) -> (holds: bool)
    ensures
        holds == (perm@.len() > at && perm@[at as int] == want),
{
    let text = perm.as_str();
    text.unicode_len() > at && text.get_char(at) == want
}

impl ProcMemoryRegion {
    /// Whether `addr` lies in the region, both bounds included.
    pub fn contains(&self, addr: u64) -> (inside: bool)
        ensures
            inside == self@.contains(addr as int),
    {
        addr >= self.start && addr <= self.end
    }

    pub fn is_readable(&self) -> (granted: bool)
        ensures
            granted == self@.readable(),
    {
        perm_is(&self.perm, 0, 'r')
    }

    pub fn is_writeable(&self) -> (granted: bool)
        ensures
            granted == self@.writeable(),
    {
        perm_is(&self.perm, 1, 'w')
    }

    pub fn is_executable(&self) -> (granted: bool)
        ensures
            granted == self@.executable(),
    {
        perm_is(&self.perm, 2, 'x')
    }

    /// The distance from the start of the region to its end.
    pub fn size(&self) -> (bytes: u64)
        requires
            self.start <= self.end,
        ensures
            bytes == self.end - self.start,
    {
        self.end - self.start
    }
}

/// What a line of a memory map holds.
pub ghost enum LineOutcome {
    /// Too few fields, or an address range that is not two parts around one
    /// dash: the line is passed over.
    Skipped,
    /// A number that cannot be read.
    Broken,
    /// A region.
    Region(RegionView),
}

/// Whether `t` holds exactly one dash.
pub open spec fn has_one_dash(t: Seq<char>) -> bool {
    let d = find_from(t, '-', 0);
    d < t.len() && find_from(t, '-', d + 1) == t.len()
}

/// What the line `line` holds: its fields are separated by whitespace, the
/// first five being the address range (two hexadecimal numbers around a dash),
/// the permissions, the offset (hexadecimal), the device and the inode
/// (decimal); what follows is the path, its parts joined by single spaces.
pub open spec fn line_outcome(line: Seq<char>) -> LineOutcome {
    let ts = tokens(line);
    if ts.len() < 5 || !has_one_dash(ts[0]) {
        LineOutcome::Skipped
    } else {
        let d = find_from(ts[0], '-', 0);
        let start = parse_u64_spec(ts[0].subrange(0, d), 16);
        let end = parse_u64_spec(ts[0].subrange(d + 1, ts[0].len() as int), 16);
        let offset = parse_u64_spec(ts[2], 16);
        let inode = parse_u64_spec(ts[4], 10);
        if start is None || end is None || offset is None || inode is None {
            LineOutcome::Broken
        } else {
            LineOutcome::Region(
                RegionView {
                    start: start->0,
                    end: end->0,
                    perm: ts[1],
                    offset: offset->0,
                    dev: ts[3],
                    inode: inode->0,
                    pathname: if ts.len() > 5 {
                        Some(join_spaced(ts.skip(5)))
                    } else {
                        None
                    },
                },
            )
        }
    }
}

/// The text that comes with a line that holds a number that cannot be
/// read: it names the first such field.
pub open spec fn broken_text(line: Seq<char>) -> Seq<char> {
    let ts = tokens(line);
    let d = find_from(ts[0], '-', 0);
    if parse_u64_spec(ts[0].subrange(0, d), 16) is None {
        "Invalid start address"@
    } else if parse_u64_spec(ts[0].subrange(d + 1, ts[0].len() as int), 16) is None {
        "Invalid end address"@
    } else if parse_u64_spec(ts[2], 16) is None {
        "Invalid offset"@
    } else {
        "Invalid inode"@
    }
}

/// Whether `parsed` is what the line `line` gives: nothing for a line that is
/// passed over, a parse error for a number that cannot be read, else the
/// region.
pub open spec fn is_line_result(
    line: Seq<char>,
    parsed: Result<Option<ProcMemoryRegion>, LimeError>,
) -> bool {
    match parsed {
        Ok(None) => line_outcome(line) == LineOutcome::Skipped,
        Ok(Some(region)) => line_outcome(line) == LineOutcome::Region(region@),
        Err(LimeError::MemAddr(MemAddrError::ParseError(m))) => line_outcome(line)
            == LineOutcome::Broken && m@ == broken_text(line),
        Err(_) => false,
    }
}

fn parse_failure(what: &str) -> (e: LimeError)
    ensures
        e matches LimeError::MemAddr(MemAddrError::ParseError(m)) && m@ == what@,
{
    LimeError::MemAddr(MemAddrError::ParseError(String::from_str(what)))
}

/// The path that the tokens from the sixth on write, joined by single spaces.
fn join_path(chars: &[char], spans: &Vec<(usize, usize)>) -> (path: String)
    requires
        spans.len() > 5,
        forall|k: int| 0 <= k < spans.len() ==> (#[trigger] spans[k]).0 < spans[k].1 <= chars.len(),
    ensures
        path@ == join_spaced(spans_text(chars@, spans@).skip(5)),
{
    let ghost parts = spans_text(chars@, spans@).skip(5);
    let mut joined: Vec<char> = Vec::new();
    let (a, b) = spans[5];
    joined.extend_from_slice(slice_subrange(chars, a, b));
    assert(parts.take(1) =~= seq![parts[0]]);
    assert(joined@ =~= parts[0]);
    let mut k: usize = 6;
    while k < spans.len()
        invariant
            6 <= k <= spans.len(),
            parts == spans_text(chars@, spans@).skip(5),
            forall|j: int|
                0 <= j < spans.len() ==> (#[trigger] spans[j]).0 < spans[j].1 <= chars.len(),
            joined@ == join_spaced(parts.take(k - 5)),
        decreases spans.len() - k,
    {
        let (a, b) = spans[k];
        joined.push(' ');
        joined.extend_from_slice(slice_subrange(chars, a, b));
        proof {
            let now = parts.take(k - 5 + 1);
            assert(now.drop_last() =~= parts.take(k - 5));
            assert(now.last() == chars@.subrange(a as int, b as int));
            assert(joined@ =~= join_spaced(now.drop_last()) + seq![' '] + now.last());
        }
        k += 1;
    }
    assert(parts.take(k - 5) =~= parts);
    text_of(joined.as_slice())
}

/// Reads one line of a memory map, given as its characters.
pub fn parse_line_chars(chars: &[char]) -> (parsed: Result<Option<ProcMemoryRegion>, LimeError>)
    ensures
        is_line_result(chars@, parsed),
{
    let spans = split_tokens(chars);
    let ghost ts = tokens(chars@);
    if spans.len() < 5 {
        return Ok(None);
    }
    let (a0, b0) = spans[0];
    assert(ts[0] == chars@.subrange(a0 as int, b0 as int));
    let range = slice_subrange(chars, a0, b0);
    let dash: usize = find_char(range, '-', 0);
    if dash >= range.len() {
        return Ok(None);
    }
    let second: usize = find_char(range, '-', dash + 1);
    if second < range.len() {
        return Ok(None);
    }
    let (a1, b1) = spans[1];
    let (a2, b2) = spans[2];
    let (a3, b3) = spans[3];
    let (a4, b4) = spans[4];
    assert(ts[1] == chars@.subrange(a1 as int, b1 as int));
    assert(ts[2] == chars@.subrange(a2 as int, b2 as int));
    assert(ts[3] == chars@.subrange(a3 as int, b3 as int));
    assert(ts[4] == chars@.subrange(a4 as int, b4 as int));
    let start = match parse_u64(slice_subrange(range, 0, dash), 16) {
        Some(v) => v,
        None => {
            return Err(parse_failure("Invalid start address"));
        },
    };
    let end = match parse_u64(slice_subrange(range, dash + 1, range.len()), 16) {
        Some(v) => v,
        None => {
            return Err(parse_failure("Invalid end address"));
        },
    };
    let perm = text_between(chars, a1, b1);
    let offset = match parse_u64(slice_subrange(chars, a2, b2), 16) {
        Some(v) => v,
        None => {
            return Err(parse_failure("Invalid offset"));
        },
    };
    let dev = text_between(chars, a3, b3);
    let inode = match parse_u64(slice_subrange(chars, a4, b4), 10) {
        Some(v) => v,
        None => {
            return Err(parse_failure("Invalid inode"));
        },
    };
    let pathname = if spans.len() > 5 {
        Some(join_path(chars, &spans))
    } else {
        None
    };
    Ok(Some(ProcMemoryRegion { start, end, perm, offset, dev, inode, pathname }))
}

/// The first dash of a text that holds one between two parts without any
/// lies after the first part, and no dash follows it.
proof fn lemma_one_dash(a: Seq<char>, b: Seq<char>)
    requires
        !a.contains('-'),
        !b.contains('-'),
    ensures
        find_from(a + seq!['-'] + b, '-', 0) == a.len(),
        has_one_dash(a + seq!['-'] + b),
{
    let t = a + seq!['-'] + b;
    lemma_find_from(t, '-', 0);
    let d = find_from(t, '-', 0);
    assert(t[a.len() as int] == '-');
    if d < a.len() {
        assert(t[d] == a[d]);
        assert(a.contains(a[d]));
    }
    lemma_find_from(t, '-', a.len() as int + 1);
    let e = find_from(t, '-', a.len() as int + 1);
    if e < t.len() {
        assert(t[e] == b[e - a.len() - 1]);
        assert(b.contains(b[e - a.len() - 1]));
    }
}

/// A line whose fields are well formed gives the region that they write:
/// each number by its value, the other fields as they stand, and the parts of
/// the path joined by single spaces.
pub proof fn law_line_gives_its_fields(line: Seq<char>, first: Seq<char>, second: Seq<char>)
    requires
        tokens(line).len() >= 5,
        tokens(line)[0] == first + seq!['-'] + second,
        !first.contains('-'),
        !second.contains('-'),
        parse_u64_spec(first, 16) is Some,
        parse_u64_spec(second, 16) is Some,
        parse_u64_spec(tokens(line)[2], 16) is Some,
        parse_u64_spec(tokens(line)[4], 10) is Some,
    ensures
        line_outcome(line) == LineOutcome::Region(
            RegionView {
                start: parse_u64_spec(first, 16)->0,
                end: parse_u64_spec(second, 16)->0,
                perm: tokens(line)[1],
                offset: parse_u64_spec(tokens(line)[2], 16)->0,
                dev: tokens(line)[3],
                inode: parse_u64_spec(tokens(line)[4], 10)->0,
                pathname: if tokens(line).len() > 5 {
                    Some(join_spaced(tokens(line).skip(5)))
                } else {
                    None
                },
            },
        ),
{
    let t = tokens(line)[0];
    lemma_one_dash(first, second);
    assert(t.subrange(0, first.len() as int) =~= first);
    assert(t.subrange(first.len() as int + 1, t.len() as int) =~= second);
}

/// Writing the fields of a line again with single spaces between them gives
/// a line that holds the same: the same region, path included, or the same
/// refusal.
pub proof fn law_line_written_again(line: Seq<char>)
    ensures
        line_outcome(join_spaced(tokens(line))) == line_outcome(line),
{
    law_split_ignores_layout(line);
}

/// The fields that write the region: the address range, the permissions,
/// the offset, the device and the inode, then the words of the path `ws`.
/// Addresses and offset stand in hexadecimal, the inode in decimal.
pub open spec fn written_fields(r: RegionView, ws: Seq<Seq<char>>) -> Seq<Seq<char>> {
    seq![
        digits_of(r.start as nat, 16) + seq!['-'] + digits_of(r.end as nat, 16),
        r.perm,
        digits_of(r.offset as nat, 16),
        r.dev,
        digits_of(r.inode as nat, 10),
    ] + ws
}

/// The line that writes the region, with single spaces between the fields.
pub open spec fn written_line(r: RegionView, ws: Seq<Seq<char>>) -> Seq<char> {
    join_spaced(written_fields(r, ws))
}

/// A region written as a line reads back as itself: every number, the
/// permissions, the device, and the path with single spaces between its
/// words.
pub proof fn law_written_region_reads_back(r: RegionView, ws: Seq<Seq<char>>)
    requires
        is_word(r.perm),
        is_word(r.dev),
        all_words(ws),
        r.pathname == (if ws.len() > 0 {
            Some(join_spaced(ws))
        } else {
            None
        }),
    ensures
        line_outcome(written_line(r, ws)) == LineOutcome::Region(r),
{
    let first = digits_of(r.start as nat, 16);
    let second = digits_of(r.end as nat, 16);
    let range = first + seq!['-'] + second;
    let fields = written_fields(r, ws);
    let line = written_line(r, ws);
    lemma_digits_of(r.start as nat, 16);
    lemma_digits_of(r.end as nat, 16);
    lemma_digits_of(r.offset as nat, 16);
    lemma_digits_of(r.inode as nat, 10);
    law_number_reads_back(r.start, 16);
    law_number_reads_back(r.end, 16);
    law_number_reads_back(r.offset, 16);
    law_number_reads_back(r.inode, 10);
    assert(is_word(range)) by {
        assert forall|k: int| 0 <= k < range.len() implies !is_space(#[trigger] range[k]) by {
            if k < first.len() {
                assert(range[k] == first[k]);
            } else if k == first.len() {
                assert(range[k] == '-');
            } else {
                assert(range[k] == second[k - first.len() - 1]);
            }
        }
    }
    assert forall|k: int| 0 <= k < fields.len() implies is_word(#[trigger] fields[k]) by {
        if k >= 5 {
            assert(fields[k] == ws[k - 5]);
        }
    }
    law_join_then_split(fields);
    assert(tokens(line) == fields);
    assert(!first.contains('-')) by {
        if first.contains('-') {
            let k = choose|k: int| 0 <= k < first.len() && first[k] == '-';
            assert(first[k] != '-');
        }
    }
    assert(!second.contains('-')) by {
        if second.contains('-') {
            let k = choose|k: int| 0 <= k < second.len() && second[k] == '-';
            assert(second[k] != '-');
        }
    }
    law_line_gives_its_fields(line, first, second);
    assert(fields.skip(5) =~= ws);
}

} // verus!
