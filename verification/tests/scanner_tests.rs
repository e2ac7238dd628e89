use lime::errors::{GeneralErrors, LimeError, MemAddrError, RPMError};
use lime::maps::ProcMemoryMaps;
use lime::pattern::Pattern;
use lime::scan::{scan_for_pattern, scan_heap_for_pattern, scan_module_for_pattern, scan_region_for_pattern};
use lime::scanner::{read_chunk, OffsetScanner};
use lime::snapshot::MemorySnapshot;
use lime::traits::ReadProcessMemory;

/// Bytes laid out from a base address on; reads outside fail, and so do
/// reads at the addresses listed as holes.
struct Synthetic {
    base: u64,
    bytes: Vec<u8>,
    holes: Vec<u64>,
    reads: Vec<u64>,
}

impl Synthetic {
    fn new(base: u64, bytes: Vec<u8>) -> Self {
        Synthetic { base, bytes, holes: Vec::new(), reads: Vec::new() }
    }
}

impl ReadProcessMemory for Synthetic {
    fn read_value(&mut self, addr: u64, size: usize) -> Result<Vec<u8>, LimeError> {
        let mut out = Vec::new();
        for k in 0..size as u64 {
            let a = addr + k;
            self.reads.push(a);
            if a < self.base || a - self.base >= self.bytes.len() as u64 || self.holes.contains(&a) {
                return Err(LimeError::Read(RPMError::FailedToRead(format!("{}", a))));
            }
            out.push(self.bytes[(a - self.base) as usize]);
        }
        Ok(out)
    }
}

fn parse(text: &str) -> Pattern {
    Pattern::from_str(text).unwrap()
}

fn memory_with_mark() -> Synthetic {
    let mut bytes = vec![0u8; 0x1800];
    bytes[0x800] = 0xDE;
    bytes[0x801] = 0xAD;
    bytes[0x802] = 0xBE;
    bytes[0x803] = 0xEF;
    Synthetic::new(0x800, bytes)
}

#[test]
fn scan_buf_empty_pattern() {
    let scanner = OffsetScanner::new(16);
    assert!(matches!(
        scanner.scan_buf_for_pattern(&[0x00, 0x01], &parse("")),
        Err(LimeError::General(GeneralErrors::PatternIsEmpty(_)))
    ));
}

#[test]
fn scan_buf_buffer_shorter_than_pattern() {
    let scanner = OffsetScanner::new(16);
    assert!(matches!(
        scanner.scan_buf_for_pattern(&[0x01], &parse("AA BB")),
        Err(LimeError::General(GeneralErrors::PatternLargerThanBuffer(_)))
    ));
}

#[test]
fn scan_buf_not_found() {
    let scanner = OffsetScanner::new(16);
    assert!(matches!(
        scanner.scan_buf_for_pattern(&[0x01, 0x02, 0x03], &parse("AA")),
        Err(LimeError::General(GeneralErrors::PatternNotFound(_)))
    ));
}

#[test]
fn scan_buf_finds_every_position_in_order() {
    let scanner = OffsetScanner::new(16);
    let buf = [1u8, 2, 1, 2, 1, 2, 3];
    assert_eq!(scanner.scan_buf_for_pattern(&buf, &parse("01 02")).unwrap(), vec![0, 2, 4]);
    assert_eq!(scanner.scan_buf_for_pattern(&buf, &parse("01 ?")).unwrap(), vec![0, 2, 4]);
    assert_eq!(scanner.scan_buf_for_pattern(&buf, &parse("? ?")).unwrap(), vec![0, 1, 2, 3, 4, 5]);
}

#[test]
fn scan_buf_reaches_the_last_position() {
    let scanner = OffsetScanner::new(16);
    assert_eq!(scanner.scan_buf_for_pattern(&[1, 2, 3], &parse("03")).unwrap(), vec![2]);
    assert_eq!(scanner.scan_buf_for_pattern(&[1, 2, 3], &parse("01 02 03")).unwrap(), vec![0]);
}

#[test]
fn scan_buf_results_ascend_and_match() {
    let scanner = OffsetScanner::new(16);
    let buf: Vec<u8> = (0..200u32).map(|i| (i % 3) as u8).collect();
    let p = parse("00 ? 02");
    let found = scanner.scan_buf_for_pattern(&buf, &p).unwrap();
    for w in found.windows(2) {
        assert!(w[0] < w[1]);
    }
    for &i in &found {
        assert!(p.matches(&buf[i as usize..i as usize + p.len()]));
    }
    for i in 0..=buf.len() - p.len() {
        assert_eq!(p.matches(&buf[i..i + p.len()]), found.contains(&(i as u64)));
    }
}

#[test]
fn scan_chunk_adds_the_base() {
    let scanner = OffsetScanner::new(16);
    let found = scanner.scan_chunk_for_pattern(&[9, 7, 9, 7], 0x4000, &parse("07"));
    assert_eq!(found, vec![0x4001, 0x4003]);
    assert!(scanner.scan_chunk_for_pattern(&[9, 7], 0x4000, &parse("01")).is_empty());
    assert!(scanner.scan_chunk_for_pattern(&[9], 0x4000, &parse("09 07")).is_empty());
    assert!(scanner.scan_chunk_for_pattern(&[9], 0x4000, &parse("")).is_empty());
}

#[test]
fn read_chunk_stops_at_first_failure() {
    let mut mem = Synthetic::new(0x10, vec![1, 2, 3, 4, 5]);
    assert_eq!(read_chunk(&mut mem, 0x10, 5), vec![1, 2, 3, 4, 5]);
    assert_eq!(read_chunk(&mut mem, 0x12, 8), vec![3, 4, 5]);
    mem.holes.push(0x11);
    assert_eq!(read_chunk(&mut mem, 0x10, 5), vec![1]);
    assert_eq!(read_chunk(&mut mem, 0x11, 4), Vec::<u8>::new());
    assert_eq!(read_chunk(&mut mem, 0x10, 0), Vec::<u8>::new());
}

#[test]
fn scan_range_empty_pattern() {
    let mut mem = memory_with_mark();
    let scanner = OffsetScanner::new(64);
    assert!(matches!(
        scanner.scan_range_for_pattern(&mut mem, 0x800, 0x2000, &parse("")),
        Err(LimeError::General(GeneralErrors::PatternIsEmpty(_)))
    ));
    assert!(matches!(
        scanner.scan_range_for_pattern(&mut mem, 0x2000, 0x800, &parse("")),
        Err(LimeError::General(GeneralErrors::PatternIsEmpty(_)))
    ));
}

#[test]
fn scan_range_start_not_below_end() {
    let mut mem = memory_with_mark();
    let scanner = OffsetScanner::new(64);
    assert!(matches!(
        scanner.scan_range_for_pattern(&mut mem, 0x2000, 0x2000, &parse("DE")),
        Err(LimeError::MemAddr(MemAddrError::AddressOutOfBounds(_)))
    ));
    match scanner.scan_range_for_pattern(&mut mem, 0x2000, 0x800, &parse("DE")) {
        Err(LimeError::MemAddr(MemAddrError::AddressOutOfBounds(m))) => {
            assert_eq!(m, "start address (8192) bigger or equal to end address (2048)")
        }
        other => panic!("unexpected {:?}", other),
    }
}

#[test]
fn scan_range_straddling_match() {
    for chunk in 4..=9usize {
        let mut mem = memory_with_mark();
        let scanner = OffsetScanner::new(chunk);
        let found = scanner
            .scan_range_for_pattern(&mut mem, 0x800, 0x2000, &parse("DE AD BE EF"))
            .unwrap();
        assert_eq!(found, vec![0x1000], "chunk size {}", chunk);
    }
}

#[test]
fn scan_range_chunk_smaller_than_pattern_finds_nothing() {
    let mut mem = memory_with_mark();
    let scanner = OffsetScanner::new(3);
    let found = scanner
        .scan_range_for_pattern(&mut mem, 0x800, 0x2000, &parse("DE AD BE EF"))
        .unwrap();
    assert_eq!(found, Vec::<u64>::new());
    assert!(mem.reads.is_empty());
}

#[test]
fn scan_range_is_complete_and_sound_for_any_chunk_size() {
    let bytes: Vec<u8> = (0..300u32).map(|i| if i % 7 < 2 { 0xAB } else { (i % 5) as u8 }).collect();
    let p = parse("AB ? 02");
    let mut expected = Vec::new();
    for i in 0..=bytes.len() - 3 {
        if p.matches(&bytes[i..i + 3]) {
            expected.push(0x5000 + i as u64);
        }
    }
    assert!(!expected.is_empty());
    for chunk in [3usize, 4, 5, 8, 64, 299, 300, 301, 1 << 20] {
        let mut mem = Synthetic::new(0x5000, bytes.clone());
        let scanner = OffsetScanner::new(chunk);
        let found = scanner.scan_range_for_pattern(&mut mem, 0x5000, 0x5000 + 300, &p).unwrap();
        assert_eq!(found, expected, "chunk size {}", chunk);
        for w in found.windows(2) {
            assert!(w[0] < w[1]);
        }
    }
}

#[test]
fn scan_range_respects_the_bounds() {
    let bytes = vec![0x11u8; 64];
    let p = parse("11 11");
    let mut mem = Synthetic::new(0x100, bytes);
    let scanner = OffsetScanner::new(7);
    let found = scanner.scan_range_for_pattern(&mut mem, 0x110, 0x120, &p).unwrap();
    let expected: Vec<u64> = (0x110..=0x11e).collect();
    assert_eq!(found, expected);
    for &a in &mem.reads {
        assert!(0x110 <= a && a < 0x120);
    }
}

#[test]
fn scan_range_shorter_than_pattern_is_empty() {
    let mut mem = memory_with_mark();
    let scanner = OffsetScanner::new(64);
    let found = scanner.scan_range_for_pattern(&mut mem, 0x1000, 0x1003, &parse("DE AD BE EF")).unwrap();
    assert!(found.is_empty());
    let found = scanner.scan_range_for_pattern(&mut mem, 0x1000, 0x1004, &parse("DE AD BE EF")).unwrap();
    assert_eq!(found, vec![0x1000]);
}

#[test]
fn scan_range_truncated_chunk_is_scanned_and_passed() {
    let mut bytes = vec![0u8; 32];
    bytes[2] = 0x77;
    bytes[20] = 0x77;
    let mut mem = Synthetic::new(0, bytes);
    mem.holes.push(10);
    let scanner = OffsetScanner::new(16);
    let found = scanner.scan_range_for_pattern(&mut mem, 0, 32, &parse("77")).unwrap();
    assert_eq!(found, vec![2, 20]);
}

#[test]
fn scan_range_unreadable_memory_gives_nothing() {
    let mut mem = Synthetic::new(0x9000, vec![1, 2, 3]);
    let scanner = OffsetScanner::new(8);
    let found = scanner.scan_range_for_pattern(&mut mem, 0x100, 0x140, &parse("01")).unwrap();
    assert!(found.is_empty());
}

#[test]
fn default_scanner_reads_a_mebibyte() {
    let bytes: Vec<u8> = vec![5u8; 16];
    let mut mem = Synthetic::new(0, bytes);
    let scanner = OffsetScanner::default();
    let found = scanner.scan_range_for_pattern(&mut mem, 0, 16, &parse("05 05 05 05")).unwrap();
    assert_eq!(found.len(), 13);
    assert_eq!(mem.reads.len(), 16);
}

fn two_module_map() -> ProcMemoryMaps {
    let text = "\
3000-3010 r-xp 00000000 08:01 12345 /lib/x.so
1000-1010 r--p 00000000 08:01 12345 /lib/x.so
2000-2010 ---p 00000000 08:01 12345 /lib/x.so
4000-4010 rw-p 00000000 00:00 0 [heap]
5000-5010 rw-p 00000000 00:00 0 [stack]
6000-6010 rw-p 00000000 00:00 0
";
    ProcMemoryMaps::parse(text).unwrap()
}

fn marked_everywhere() -> Synthetic {
    let mut bytes = vec![0u8; 0x7000];
    for base in [0x1000usize, 0x2000, 0x3000, 0x4000, 0x5000, 0x6000] {
        bytes[base + 4] = 0xC3;
        bytes[base + 5] = 0x90;
    }
    Synthetic::new(0, bytes)
}

#[test]
fn scan_region_scans_one_region() {
    let maps = two_module_map();
    let mut mem = marked_everywhere();
    let region = &maps.get_regions()[3];
    assert_eq!(scan_region_for_pattern(&mut mem, region, "C3 90").unwrap(), vec![0x4004]);
    assert_eq!(scan_region_for_pattern(&mut mem, region, "C3 ?").unwrap(), vec![0x4004]);
    assert!(scan_region_for_pattern(&mut mem, region, "FF").unwrap().is_empty());
    assert!(matches!(
        scan_region_for_pattern(&mut mem, region, "C390"),
        Err(LimeError::Format(_))
    ));
    assert!(matches!(
        scan_region_for_pattern(&mut mem, region, ""),
        Err(LimeError::General(GeneralErrors::PatternIsEmpty(_)))
    ));
}

#[test]
fn scan_module_visits_readable_regions_and_sorts() {
    let maps = two_module_map();
    let mut mem = marked_everywhere();
    let found = scan_module_for_pattern(&mut mem, &maps, "x.so", "0xC3 0x90").unwrap();
    assert_eq!(found, vec![0x1004, 0x3004]);
    let found = scan_module_for_pattern(&mut mem, &maps, "absent", "C3").unwrap();
    assert!(found.is_empty());
    assert!(scan_module_for_pattern(&mut mem, &maps, "absent", "").unwrap().is_empty());
    assert!(matches!(
        scan_module_for_pattern(&mut mem, &maps, "x.so", ""),
        Err(LimeError::General(GeneralErrors::PatternIsEmpty(_)))
    ));
    assert!(matches!(
        scan_module_for_pattern(&mut mem, &maps, "x.so", "XY"),
        Err(LimeError::Format(_))
    ));
}

#[test]
fn scan_module_fails_on_a_region_without_extent() {
    let maps = ProcMemoryMaps::parse("1000-1000 r-xp 0 08:01 1 /lib/x.so\n").unwrap();
    let mut mem = marked_everywhere();
    assert!(matches!(
        scan_module_for_pattern(&mut mem, &maps, "x.so", "C3"),
        Err(LimeError::MemAddr(MemAddrError::AddressOutOfBounds(_)))
    ));
    assert_eq!(scan_for_pattern(&mut mem, &maps, "C3"), None);
}

#[test]
fn scan_heap_visits_the_heap() {
    let maps = two_module_map();
    let mut mem = marked_everywhere();
    assert_eq!(scan_heap_for_pattern(&mut mem, &maps, "C3 90").unwrap(), vec![0x4004]);
    assert!(scan_heap_for_pattern(&mut mem, &maps, "AA BB").unwrap().is_empty());
}

#[test]
fn scan_all_visits_readable_regions() {
    let maps = two_module_map();
    let mut mem = marked_everywhere();
    assert_eq!(
        scan_for_pattern(&mut mem, &maps, "C3 90"),
        Some(vec![0x1004, 0x3004, 0x4004, 0x5004, 0x6004])
    );
    assert_eq!(scan_for_pattern(&mut mem, &maps, "AA BB"), None);
    assert_eq!(scan_for_pattern(&mut mem, &maps, "nonsense"), None);
    assert_eq!(scan_for_pattern(&mut mem, &maps, ""), None);
}

#[test]
fn snapshot_reads_what_it_holds() {
    let mut snap = MemorySnapshot::new(0x100, vec![1, 2, 3, 4]);
    assert_eq!(snap.read_value(0x100, 4).unwrap(), vec![1, 2, 3, 4]);
    assert_eq!(snap.read_value(0x102, 1).unwrap(), vec![3]);
    assert_eq!(snap.read_value(0x104, 0).unwrap(), Vec::<u8>::new());
    assert!(matches!(snap.read_value(0x104, 1), Err(LimeError::Read(RPMError::FailedToRead(_)))));
    assert!(matches!(snap.read_value(0xff, 1), Err(LimeError::Read(RPMError::FailedToRead(_)))));
    assert!(matches!(snap.read_value(0x101, 4), Err(LimeError::Read(RPMError::FailedToRead(_)))));
    assert!(matches!(snap.read_value(u64::MAX, 2), Err(LimeError::Read(RPMError::FailedToRead(_)))));
}

#[test]
fn snapshot_scan_finds_the_straddling_match() {
    let mut bytes = vec![0u8; 0x1800];
    bytes[0x800..0x804].copy_from_slice(&[0xDE, 0xAD, 0xBE, 0xEF]);
    let mut snap = MemorySnapshot::new(0x800, bytes);
    let p = parse("DE AD BE EF");
    for chunk in [4usize, 5, 6, 7, 1024] {
        let scanner = OffsetScanner::new(chunk);
        assert_eq!(scanner.scan_range_for_pattern(&mut snap, 0x800, 0x2000, &p).unwrap(), vec![0x1000]);
    }
}

#[test]
fn scan_over_regions_that_overlap_repeats_an_address() {
    let maps = ProcMemoryMaps::parse("1000-1100 r--p 0 0 0 /m\n1000-1100 r--p 0 0 0 /m\n").unwrap();
    let mut mem = marked_everywhere();
    assert_eq!(scan_module_for_pattern(&mut mem, &maps, "/m", "C3 90").unwrap(), vec![0x1004, 0x1004]);
    let apart = ProcMemoryMaps::parse("1000-1100 r--p 0 0 0 /m\n1100-1200 r--p 0 0 0 /m\n").unwrap();
    assert_eq!(scan_module_for_pattern(&mut mem, &apart, "/m", "00 C3").unwrap(), vec![0x1003]);
}

#[test]
fn scan_range_reads_one_byte_at_a_time_in_order() {
    let mut mem = Synthetic::new(0x10, vec![1, 2, 3, 4, 5, 6, 7, 8]);
    let scanner = OffsetScanner::new(4);
    scanner.scan_range_for_pattern(&mut mem, 0x10, 0x18, &parse("09 09")).unwrap();
    assert_eq!(
        mem.reads,
        vec![0x10, 0x11, 0x12, 0x13, 0x13, 0x14, 0x15, 0x16, 0x16, 0x17]
    );
    let mut mem = Synthetic::new(0x10, vec![1, 2, 3, 4, 5, 6, 7, 8]);
    mem.holes.push(0x12);
    assert_eq!(read_chunk(&mut mem, 0x10, 6), vec![1, 2]);
    assert_eq!(mem.reads, vec![0x10, 0x11, 0x12]);
}
