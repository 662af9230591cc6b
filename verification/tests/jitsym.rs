use profiler::jitsym::JitSymbolTable;
use profiler::text::{parse_hex, push_lower_hex};

const MAP_FIXTURE: &str = "\
7f0000000000 40 LazyCompile:*foo /tmp/x.js:1:1
7f0000001000 100 LazyCompile:*bar /tmp/x.js:5:1
";

#[test]
fn resolves_addresses_within_range() {
    let table = JitSymbolTable::parse(MAP_FIXTURE);
    assert_eq!(table.resolve(0x7f0000000000), Some(("LazyCompile:*foo /tmp/x.js:1:1", 0)));
    assert_eq!(table.resolve(0x7f0000000010), Some(("LazyCompile:*foo /tmp/x.js:1:1", 0x10)));
    assert_eq!(table.resolve(0x7f0000001050), Some(("LazyCompile:*bar /tmp/x.js:5:1", 0x50)));
}

#[test]
fn addresses_outside_any_range_are_unresolved() {
    let table = JitSymbolTable::parse(MAP_FIXTURE);
    assert_eq!(table.resolve(0x7f0000000040), None); // exactly at foo's end (exclusive)
    assert_eq!(table.resolve(0x6f0000000000), None); // before the first entry
    assert_eq!(table.resolve(0x7f0000000900), None); // gap between foo and bar
}

#[test]
fn malformed_lines_are_skipped() {
    let text = "\
not-hex 40 bad_start
7f0000000000 not-hex bad_size
7f0000000000 40
\n\
7f0000002000 10 ok_entry
";
    let table = JitSymbolTable::parse(text);
    assert_eq!(table.resolve(0x7f0000002000), Some(("ok_entry", 0)));
    assert_eq!(table.resolve(0x0), None);
}

#[test]
fn empty_file_yields_empty_table() {
    let table = JitSymbolTable::parse("");
    assert!(table.is_empty());
    assert_eq!(table.resolve(0x1000), None);
}

#[test]
fn later_entry_wins_on_duplicate_start() {
    let text = "\
1000 10 first
1000 20 second
";
    let table = JitSymbolTable::parse(text);
    assert_eq!(table.resolve(0x1000), Some(("second", 0)));
}

#[test]
fn lines_out_of_order_are_sorted_by_start() {
    let text = "3000 10 c\n1000 10 a\n2000 10 b";
    let table = JitSymbolTable::parse(text);
    assert!(!table.is_empty());
    assert_eq!(table.resolve(0x1005), Some(("a", 5)));
    assert_eq!(table.resolve(0x2000), Some(("b", 0)));
    assert_eq!(table.resolve(0x300f), Some(("c", 0xf)));
    assert_eq!(table.resolve(0x3010), None);
}

#[test]
fn an_enclosing_range_still_resolves() {
    // Where several ranges hold the address, the one with the greatest start
    // wins; an enclosing range answers where the inner one does not reach.
    let table = JitSymbolTable::parse("1000 1000 outer\n1100 10 inner\n");
    assert_eq!(table.resolve(0x1105), Some(("inner", 5)));
    assert_eq!(table.resolve(0x1200), Some(("outer", 0x200)));
    assert_eq!(table.resolve(0x10ff), Some(("outer", 0xff)));
    assert_eq!(table.resolve(0x2000), None);
    let nested = JitSymbolTable::parse("1000 100 outer\n1010 10 inner\n");
    assert_eq!(nested.resolve(0x1050), Some(("outer", 0x50)));
}

#[test]
fn a_zero_size_symbol_hides_nothing() {
    let table = JitSymbolTable::parse("1000 100 outer\n1050 0 empty\n");
    assert_eq!(table.resolve(0x1060), Some(("outer", 0x60)));
    assert_eq!(table.resolve(0x1050), Some(("outer", 0x50)));
}

#[test]
fn a_shorter_later_line_with_the_same_start() {
    let table = JitSymbolTable::parse("1000 100 long\n1000 10 short\n");
    assert_eq!(table.resolve(0x1005), Some(("short", 5)));
    assert_eq!(table.resolve(0x1050), Some(("long", 0x50)));
}

#[test]
fn crlf_endings_and_name_spacing() {
    let text = "1000 10   spaced name  \r\nA0 +B lower\u{3000}upper\r\n";
    let table = JitSymbolTable::parse(text);
    assert_eq!(table.resolve(0x1001), Some(("spaced name  ", 1)));
    assert_eq!(table.resolve(0xa5), Some(("lower\u{3000}upper", 5)));
    assert_eq!(table.resolve(0xab), None);
}

#[test]
fn unicode_white_space_separates_fields() {
    let table = JitSymbolTable::parse("10\u{2003}8\u{a0}\u{a0}name\n");
    assert_eq!(table.resolve(0x17), Some(("name", 7)));
}

#[test]
fn double_separator_leaves_an_empty_size_field() {
    let table = JitSymbolTable::parse("1000  10 name\n1000 10\t \n");
    assert!(table.is_empty());
}

#[test]
fn a_final_line_without_newline_counts() {
    let table = JitSymbolTable::parse("1000 10 last");
    assert_eq!(table.resolve(0x1000), Some(("last", 0)));
}

#[test]
fn a_lone_carriage_return_stays_in_the_last_name() {
    let table = JitSymbolTable::parse("1000 10 name\r");
    assert_eq!(table.resolve(0x1000), Some(("name\r", 0)));
}

#[test]
fn overflowing_range_is_refused_by_try_parse() {
    assert!(JitSymbolTable::try_parse("ffffffffffffffff 1 too_far\n").is_none());
    assert!(JitSymbolTable::try_parse("ffffffffffffffff 0 edge\n").is_some());
    assert!(JitSymbolTable::try_parse("1000 10 ok\nzz 1 skipped\n").is_some());
}

#[test]
fn hex_fields_follow_from_str_radix() {
    let s: Vec<char> = "+1aF".chars().collect();
    assert_eq!(parse_hex(&s, 0, 4), Some(0x1af));
    assert_eq!(parse_hex(&s, 0, 1), None);
    assert_eq!(parse_hex(&s, 0, 0), None);
    let m: Vec<char> = "-1".chars().collect();
    assert_eq!(parse_hex(&m, 0, 2), None);
    let max: Vec<char> = "ffffffffffffffff".chars().collect();
    assert_eq!(parse_hex(&max, 0, 16), Some(u64::MAX));
    let over: Vec<char> = "10000000000000000".chars().collect();
    assert_eq!(parse_hex(&over, 0, 17), None);
    let zeros: Vec<char> = "00000000000000000001".chars().collect();
    assert_eq!(parse_hex(&zeros, 0, 20), Some(1));
}

#[test]
fn lower_hex_matches_format() {
    for n in [0u64, 1, 9, 10, 15, 16, 255, 0xdeadbeef, u64::MAX] {
        let mut s = String::from("x");
        push_lower_hex(&mut s, n);
        assert_eq!(s, format!("x{:x}", n));
    }
}

#[test]
fn many_unordered_lines_sort_stably() {
    let mut text = String::new();
    for i in (0..500u64).rev() {
        text.push_str(&format!("{:x} 10 first{}\n", i * 0x100, i));
        text.push_str(&format!("{:x} 8 second{}\n", i * 0x100, i));
    }
    let table = JitSymbolTable::parse(&text);
    for i in 0..500u64 {
        let second = format!("second{}", i);
        let first = format!("first{}", i);
        assert_eq!(table.resolve(i * 0x100 + 7), Some((second.as_str(), 7)));
        assert_eq!(table.resolve(i * 0x100 + 8), Some((first.as_str(), 8)));
        assert_eq!(table.resolve(i * 0x100 + 0x10), None);
    }
}

#[test]
fn lines_without_a_symbol_change_nothing() {
    let plain = "1000 10 a\n2000 10 b\n";
    let noisy = "junk\n1000 10 a\n\n1000 zz x\n2000 10 b\n3000 5\n";
    let t1 = JitSymbolTable::parse(plain);
    let t2 = JitSymbolTable::parse(noisy);
    for ip in [0xfffu64, 0x1000, 0x100f, 0x1010, 0x2005, 0x3000, 0x3002] {
        assert_eq!(t1.resolve(ip), t2.resolve(ip));
    }
}

#[test]
fn line_order_does_not_matter_with_distinct_starts() {
    let t1 = JitSymbolTable::parse("1000 100 a\n1010 10 b\n3000 10 c\n");
    let t2 = JitSymbolTable::parse("3000 10 c\n1010 10 b\n1000 100 a\n");
    for ip in [0x1000u64, 0x1015, 0x1050, 0x3005, 0x3010, 0x0] {
        assert_eq!(t1.resolve(ip), t2.resolve(ip));
    }
}

#[test]
fn formatted_lines_parse_back() {
    for (start, size) in [(0u64, 1u64), (0x7f00_0000_0000, 0x40), (u64::MAX - 1, 1)] {
        let text = format!("{:x} {:x} {}\n", start, size, "Lazy name *x");
        let table = JitSymbolTable::parse(&text);
        assert_eq!(table.resolve(start), Some(("Lazy name *x", 0)));
        assert_eq!(table.resolve(start + size - 1), Some(("Lazy name *x", size - 1)));
    }
}
