use lime::errors::{InternalLimeError, LimeError, MemAddrError};
use lime::maps::{name_test, Access, NameTest, ProcMemoryMaps};
use lime::region::ProcMemoryRegion;
use lime::text::{chars_of, parse_u64, split_tokens};

fn line(text: &str) -> ProcMemoryRegion {
    ProcMemoryMaps::parse_maps_line(text).unwrap().unwrap()
}

fn starts(found: Vec<&ProcMemoryRegion>) -> Vec<u64> {
    found.iter().map(|r| r.start).collect()
}

const SAMPLE: &str = "\
00400000-00452000 r-xp 00000000 08:02 173521 /usr/bin/dbus-daemon
00651000-00652000 r--p 00051000 08:02 173521 /usr/bin/dbus-daemon
00652000-00655000 rw-p 00052000 08:02 173521 /usr/bin/dbus-daemon
00e03000-00e24000 rw-p 00000000 00:00 0 [heap]
00e24000-011f7000 rw-p 00000000 00:00 0 [heap]
35b1800000-35b1820000 r-xp 00000000 08:02 135522 /usr/lib64/ld-2.15.so
7f2c8000-7f2c9000 rw-p 00000000 00:00 0 [stack:986]
7fffb2c0d000-7fffb2c2e000 rw-p 00000000 00:00 0 [stack]
7fffb2d48000-7fffb2d49000 r-xp 00000000 00:00 0 [vdso]
7fffb2d49000-7fffb2d4a000 --xp 00000000 00:00 0
";

#[test]
fn parse_line_reads_every_field() {
    let r = line("7f00-7f10 r-xp 1a2b 08:01 12345 /lib/x.so");
    assert_eq!(r.start, 0x7f00);
    assert_eq!(r.end, 0x7f10);
    assert_eq!(r.perm, "r-xp");
    assert_eq!(r.offset, 0x1a2b);
    assert_eq!(r.dev, "08:01");
    assert_eq!(r.inode, 12345);
    assert_eq!(r.pathname.as_deref(), Some("/lib/x.so"));
}

#[test]
fn parse_line_without_path() {
    let r = line("7f00-7f10 rw-p 00000000 00:00 0");
    assert_eq!(r.pathname, None);
    assert_eq!(r.inode, 0);
}

#[test]
fn parse_line_joins_path_with_single_spaces() {
    let r = line("7f00-7f10 r--s 0 08:01 77   /opt/my   app/lib  (deleted)  ");
    assert_eq!(r.pathname.as_deref(), Some("/opt/my app/lib (deleted)"));
    assert_eq!(r.perm, "r--s");
}

#[test]
fn parse_line_fields_come_back_when_written_again() {
    let r = line("35b1800000-35b1820000   r-xp\t00001000 08:02 135522    /usr/lib64/ld 2.15.so");
    let written = format!(
        "{:x}-{:x} {} {:08x} {} {} {}",
        r.start,
        r.end,
        r.perm,
        r.offset,
        r.dev,
        r.inode,
        r.pathname.clone().unwrap()
    );
    assert_eq!(written, "35b1800000-35b1820000 r-xp 00001000 08:02 135522 /usr/lib64/ld 2.15.so");
    let again = line(&written);
    assert_eq!(again.start, r.start);
    assert_eq!(again.end, r.end);
    assert_eq!(again.perm, r.perm);
    assert_eq!(again.offset, r.offset);
    assert_eq!(again.dev, r.dev);
    assert_eq!(again.inode, r.inode);
    assert_eq!(again.pathname, r.pathname);
}

#[test]
fn parse_line_skips_short_lines() {
    assert!(ProcMemoryMaps::parse_maps_line("").unwrap().is_none());
    assert!(ProcMemoryMaps::parse_maps_line("   ").unwrap().is_none());
    assert!(ProcMemoryMaps::parse_maps_line("7f00-7f10 r-xp 0 08:01").unwrap().is_none());
    assert!(ProcMemoryMaps::parse_maps_line("zz-7f10 r-xp 0 08:01").unwrap().is_none());
}

#[test]
fn parse_line_skips_bad_range_split() {
    assert!(ProcMemoryMaps::parse_maps_line("7f007f10 r-xp 0 08:01 1").unwrap().is_none());
    assert!(ProcMemoryMaps::parse_maps_line("7f00-7f10-7f20 r-xp 0 08:01 1").unwrap().is_none());
    assert!(ProcMemoryMaps::parse_maps_line("zz-yy-xx r-xp 0 08:01 1").unwrap().is_none());
}

#[test]
fn parse_line_refuses_bad_numbers() {
    for text in [
        "zz-7f10 r-xp 0 08:01 1",
        "7f00-zz r-xp 0 08:01 1",
        "-7f10 r-xp 0 08:01 1",
        "7f00- r-xp 0 08:01 1",
        "7f00-7f10 r-xp xyz 08:01 1",
        "7f00-7f10 r-xp 0 08:01 1a",
        "7f00-7f10 r-xp 0 08:01 -1",
        "10000000000000000-7f10 r-xp 0 08:01 1",
        "7f00-7f10 r-xp 0 08:01 18446744073709551616",
        "0x7f00-7f10 r-xp 0 08:01 1",
    ] {
        match ProcMemoryMaps::parse_maps_line(text) {
            Err(LimeError::MemAddr(MemAddrError::ParseError(_))) => {}
            other => panic!("{:?} gave {:?}", text, other),
        }
    }
}

#[test]
fn parse_line_takes_the_largest_numbers() {
    let r = line("ffffffffffffffff-FFFFFFFFFFFFFFFF r-xp +10 08:01 18446744073709551615");
    assert_eq!(r.start, u64::MAX);
    assert_eq!(r.end, u64::MAX);
    assert_eq!(r.offset, 0x10);
    assert_eq!(r.inode, u64::MAX);
    let r = line("000000000000000000007-8 r-xp 0 0 0000000000000000000000042");
    assert_eq!(r.start, 7);
    assert_eq!(r.inode, 42);
}

#[test]
fn parse_u64_exact_values() {
    let c = |s: &str| s.chars().collect::<Vec<char>>();
    assert_eq!(parse_u64(&c("7f00"), 16), Some(0x7f00));
    assert_eq!(parse_u64(&c("7F0a"), 16), Some(0x7f0a));
    assert_eq!(parse_u64(&c("12345"), 10), Some(12345));
    assert_eq!(parse_u64(&c("+12"), 10), Some(12));
    assert_eq!(parse_u64(&c("12a"), 10), None);
    assert_eq!(parse_u64(&c(""), 10), None);
    assert_eq!(parse_u64(&c("+"), 10), None);
    assert_eq!(parse_u64(&c("++1"), 10), None);
    assert_eq!(parse_u64(&c("-1"), 10), None);
    assert_eq!(parse_u64(&c("1 "), 10), None);
    assert_eq!(parse_u64(&c("18446744073709551615"), 10), Some(u64::MAX));
    assert_eq!(parse_u64(&c("18446744073709551616"), 10), None);
    assert_eq!(parse_u64(&c("ffffffffffffffff"), 16), Some(u64::MAX));
    assert_eq!(parse_u64(&c("1ffffffffffffffff"), 16), None);
}

#[test]
fn split_tokens_gives_the_spans() {
    let chars = chars_of("  ab\tc \u{a0} def ");
    assert_eq!(chars.len(), 13);
    assert_eq!(split_tokens(&chars), vec![(2, 4), (5, 6), (9, 12)]);
    assert_eq!(split_tokens(&chars_of("")), vec![]);
    assert_eq!(split_tokens(&chars_of(" \n ")), vec![]);
    assert_eq!(split_tokens(&chars_of("x")), vec![(0, 1)]);
}

#[test]
fn parse_map_keeps_the_order_and_skips_blank_lines() {
    let maps = ProcMemoryMaps::parse(SAMPLE).unwrap();
    assert_eq!(maps.get_regions().len(), 10);
    assert_eq!(maps.get_regions()[0].start, 0x400000);
    assert_eq!(maps.get_regions()[9].end, 0x7fffb2d4a000);
    let spaced = format!("\n\n{}\r\n\nnot a region\n", SAMPLE.replace('\n', "\r\n"));
    let again = ProcMemoryMaps::parse(&spaced).unwrap();
    assert_eq!(again.get_regions().len(), 10);
    assert_eq!(again.get_regions()[5].pathname.as_deref(), Some("/usr/lib64/ld-2.15.so"));
    assert_eq!(ProcMemoryMaps::parse("").unwrap().get_regions().len(), 0);
    let unterminated = ProcMemoryMaps::parse("1-2 r--p 0 0 0").unwrap();
    assert_eq!(unterminated.get_regions().len(), 1);
}

#[test]
fn parse_map_refuses_a_bad_number_anywhere() {
    let text = format!("{}7f00-7g10 r-xp 0 08:01 1 /x\n", SAMPLE);
    match ProcMemoryMaps::parse(&text) {
        Err(LimeError::MemAddr(MemAddrError::ParseError(m))) => assert_eq!(m, "Invalid end address"),
        other => panic!("unexpected {:?}", other.map(|m| m.get_regions().len())),
    }
}

#[test]
fn region_predicates() {
    let r = line("1000-2000 r-xp 0 08:01 1 /x");
    assert!(r.contains(0x1000));
    assert!(r.contains(0x2000));
    assert!(r.contains(0x1800));
    assert!(!r.contains(0xfff));
    assert!(!r.contains(0x2001));
    assert!(r.is_readable());
    assert!(!r.is_writeable());
    assert!(r.is_executable());
    assert_eq!(r.size(), 0x1000);
    let w = line("1000-1000 -w-s 0 08:01 1");
    assert!(!w.is_readable());
    assert!(w.is_writeable());
    assert!(!w.is_executable());
    assert_eq!(w.size(), 0);
    let odd = line("1000-1000 r 0 08:01 1");
    assert!(odd.is_readable());
    assert!(!odd.is_writeable());
    assert!(!odd.is_executable());
}

#[test]
fn find_region_by_addr_takes_the_first() {
    let maps = ProcMemoryMaps::parse(SAMPLE).unwrap();
    assert_eq!(maps.find_region_by_addr(0x400000).unwrap().start, 0x400000);
    assert_eq!(maps.find_region_by_addr(0x651fff).unwrap().start, 0x651000);
    assert_eq!(maps.find_region_by_addr(0x652000).unwrap().start, 0x651000);
    assert!(maps.find_region_by_addr(0x3ff000).is_none());
    assert!(maps.find_region_by_addr(0x500000).is_none());
}

#[test]
fn can_read_gates() {
    let maps = ProcMemoryMaps::parse(SAMPLE).unwrap();
    assert!(maps.can_read(0x400000, 8).is_ok());
    assert!(maps.can_read(0x400000, 0x52001).is_ok());
    assert!(maps.can_read(0x452000, 1).is_ok());
    match maps.can_read(0x400000, 0x52002) {
        Err(LimeError::MemAddr(MemAddrError::AddressOutOfBounds(m))) => assert_eq!(
            m,
            "Read from 0x400000 (size 335874) extends beyond region boundary (0x400000-0x452000)"
        ),
        other => panic!("unexpected {:?}", other),
    }
    match maps.can_read(0x500000, 1) {
        Err(LimeError::MemAddr(MemAddrError::AddressOutOfBounds(m))) => assert_eq!(m, "0x500000"),
        other => panic!("unexpected {:?}", other),
    }
    match maps.can_read(0x7fffb2d49800, 1) {
        Err(e) => assert_eq!(
            e.string(),
            "Wrong permissions for region: region is read protected: 0x7fffb2d49000-0x7fffb2d4a000"
        ),
        other => panic!("unexpected {:?}", other),
    }
    // Two readable neighbours do not make one readable span.
    assert!(matches!(
        maps.can_read(0x00e23ff0, 0x100),
        Err(LimeError::MemAddr(MemAddrError::AddressOutOfBounds(_)))
    ));
}

#[test]
fn can_read_at_the_top_of_the_address_space() {
    let maps = ProcMemoryMaps::parse("fffffffffffff000-ffffffffffffffff r--p 0 0 0\n").unwrap();
    assert!(maps.can_read(0xfffffffffffffff8, 8).is_ok());
    assert!(maps.can_read(0xfffffffffffffff8, 64).is_ok());
    let lower = ProcMemoryMaps::parse("fffffffffffff000-fffffffffffffffe r--p 0 0 0\n").unwrap();
    assert!(lower.can_read(0xfffffffffffffff8, 7).is_ok());
    assert!(lower.can_read(0xfffffffffffffff8, 8).is_err());
}

#[test]
fn can_read_of_nothing() {
    let maps = ProcMemoryMaps::parse("1000-2000 r--p 0 0 0\n").unwrap();
    assert!(maps.can_read(0x1001, 0).is_ok());
    assert!(matches!(
        maps.can_read(0x1000, 0),
        Err(LimeError::MemAddr(MemAddrError::AddressOutOfBounds(_)))
    ));
}

#[test]
fn can_write_gates() {
    let maps = ProcMemoryMaps::parse(SAMPLE).unwrap();
    assert!(maps.can_write(0x652000 + 1, 4).is_ok());
    assert!(maps.can_write(0x00e03000, 0x21001).is_ok());
    assert!(matches!(
        maps.can_write(0x00e03000, 0x21002),
        Err(LimeError::MemAddr(MemAddrError::AddressOutOfBounds(_)))
    ));
    match maps.can_write(0x400000, 4) {
        Err(LimeError::MemAddr(MemAddrError::NoPermission(m))) => {
            assert_eq!(m, "region is write protected: 0x400000-0x452000")
        }
        other => panic!("unexpected {:?}", other),
    }
    assert!(matches!(
        maps.can_write(0x10, 4),
        Err(LimeError::MemAddr(MemAddrError::AddressOutOfBounds(_)))
    ));
    assert!(maps.check_access(0x652001, 4, Access::Write).is_ok());
}

#[test]
fn can_execute_gates() {
    let maps = ProcMemoryMaps::parse(SAMPLE).unwrap();
    assert!(maps.can_execute(0x400000).is_ok());
    assert!(maps.can_execute(0x7fffb2d49800).is_ok());
    assert!(matches!(
        maps.can_execute(0x00e03000),
        Err(LimeError::MemAddr(MemAddrError::NoPermission(_)))
    ));
    assert!(matches!(
        maps.can_execute(0x10),
        Err(LimeError::MemAddr(MemAddrError::AddressOutOfBounds(_)))
    ));
}

#[test]
fn find_regions_by_name_variants() {
    let maps = ProcMemoryMaps::parse(SAMPLE).unwrap();
    assert_eq!(starts(maps.find_regions_by_name("dbus")), vec![0x400000, 0x651000, 0x652000]);
    assert_eq!(starts(maps.find_regions_by_name("daemon")), vec![0x400000, 0x651000, 0x652000]);
    assert_eq!(starts(maps.find_regions_by_name("nothing")), Vec::<u64>::new());
    assert_eq!(maps.find_regions_by_name("").len(), 9);
    assert_eq!(starts(maps.find_regions_by_name_exact("[heap]")), vec![0xe03000, 0xe24000]);
    assert_eq!(starts(maps.find_regions_by_name_exact("[hea")), Vec::<u64>::new());
    assert_eq!(starts(maps.find_regions_by_name_exact("heap]")), Vec::<u64>::new());
    assert_eq!(starts(maps.find_regions_by_prefix("/usr/lib64")), vec![0x35b1800000]);
    assert_eq!(starts(maps.find_regions_by_prefix("usr")), Vec::<u64>::new());
    assert_eq!(starts(maps.find_regions_by_suffix(".so")), vec![0x35b1800000]);
    assert_eq!(starts(maps.find_regions_by_suffix("]")).len(), 5);
    assert_eq!(starts(maps.find_regions_by_suffix("/usr")), Vec::<u64>::new());
    assert_eq!(starts(maps.find_regions(NameTest::Suffix, "daemon")).len(), 3);
}

#[test]
fn name_test_on_characters() {
    let c = |s: &str| s.chars().collect::<Vec<char>>();
    assert!(name_test(NameTest::Contains, &c("/lib/x.so"), &c("x.so")));
    assert!(name_test(NameTest::Contains, &c("/lib/x.so"), &c("/lib/x.so")));
    assert!(name_test(NameTest::Contains, &c("abc"), &c("")));
    assert!(!name_test(NameTest::Contains, &c("abc"), &c("abcd")));
    assert!(!name_test(NameTest::Contains, &c("aab"), &c("ba")));
    assert!(name_test(NameTest::Contains, &c("aab"), &c("ab")));
    assert!(name_test(NameTest::Exact, &c(""), &c("")));
    assert!(!name_test(NameTest::Exact, &c("ab"), &c("a")));
    assert!(name_test(NameTest::Prefix, &c("[stack:12]"), &c("[stack")));
    assert!(!name_test(NameTest::Prefix, &c("x[stack"), &c("[stack")));
    assert!(name_test(NameTest::Suffix, &c("lib.so"), &c(".so")));
    assert!(!name_test(NameTest::Suffix, &c("lib.so.1"), &c(".so")));
}

#[test]
fn heap_and_stack_regions() {
    let maps = ProcMemoryMaps::parse(SAMPLE).unwrap();
    assert_eq!(starts(maps.get_heap_regions()), vec![0xe03000, 0xe24000]);
    assert_eq!(starts(maps.get_stack_regions()), vec![0x7f2c8000, 0x7fffb2c0d000]);
}

#[test]
fn module_base_lookup() {
    let one = ProcMemoryMaps::parse("7f00-7f10 r-xp 0 08:01 12345 /lib/x.so\n").unwrap();
    assert_eq!(one.get_module_base("x.so"), Some(0x7f00));
    assert_eq!(one.get_module_probable_load_base("x.so"), Some(0x7f00));
    let two = ProcMemoryMaps::parse(
        "7f00-7f10 r-xp 0 08:01 12345 /lib/x.so\n7f10-7f20 r-xp 10 08:01 12345 /lib/x.so\n",
    )
    .unwrap();
    assert_eq!(two.get_module_base("x.so"), Some(0x7f00));
    assert_eq!(two.get_module_probable_load_base("x.so"), Some(0x7f00));
    assert_eq!(two.get_module_base("y.so"), None);
    assert_eq!(two.get_module_probable_load_base("y.so"), None);
}

#[test]
fn module_base_takes_the_least_executable() {
    let maps = ProcMemoryMaps::parse(
        "9000-9100 r-xp 200 08:01 1 /lib/m.so\n\
         5000-5100 r--p 0 08:01 1 /lib/m.so\n\
         7000-7100 r-xp 1000 08:01 1 /lib/m.so\n\
         8000-8100 r-xp 0 08:01 1 /lib/other.so\n",
    )
    .unwrap();
    assert_eq!(maps.get_module_base("m.so"), Some(0x7000));
    assert_eq!(maps.get_module_probable_load_base("m.so"), Some(0x6000));
    assert_eq!(maps.get_module_base("lib"), Some(0x7000));
    assert_eq!(maps.get_module_probable_load_base("other"), Some(0x8000));
}
