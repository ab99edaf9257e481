use cachesim::definitions::AccessType;
use cachesim::parse::parse_trace_line;

fn parse(s: &str) -> Option<(AccessType, u64)> {
    parse_trace_line(s.as_bytes())
}

#[test]
fn parses_reads_and_writes() {
    assert_eq!(parse("r 0x1f"), Some((AccessType::Read, 0x1f)));
    assert_eq!(parse("w 0xABCDEF"), Some((AccessType::Write, 0xabcdef)));
    assert_eq!(parse("  r\t0x10  trailing words"), Some((AccessType::Read, 0x10)));
}

#[test]
fn first_two_characters_are_skipped() {
    assert_eq!(parse("r ab10"), Some((AccessType::Read, 0x10)));
    assert_eq!(parse("w 0x+1f"), Some((AccessType::Write, 0x1f)));
}

#[test]
fn largest_address() {
    assert_eq!(parse("w 0xffffffffffffffff"), Some((AccessType::Write, u64::MAX)));
    assert_eq!(parse("w 0x1ffffffffffffffff"), None);
    assert_eq!(parse("w 0x10000000000000000"), None);
}

#[test]
fn malformed_lines_are_skipped() {
    assert_eq!(parse(""), None);
    assert_eq!(parse("   "), None);
    assert_eq!(parse("R 0x10"), None);
    assert_eq!(parse("rw 0x10"), None);
    assert_eq!(parse("r"), None);
    assert_eq!(parse("r x"), None);
    assert_eq!(parse("r 0x"), None);
    assert_eq!(parse("r 0x+"), None);
    assert_eq!(parse("r 0xzz"), None);
    assert_eq!(parse("r 0x-1"), None);
}
