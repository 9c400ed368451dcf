use adp::decimal::{read_pid, write_pid};
use adp::format::{find, read_record, write_slot, ReadError};
use adp::lockfile::LockFileEntries;

fn text(entries: &LockFileEntries) -> String {
    String::from_utf8(entries.write()).unwrap()
}

fn read(input: &str) -> LockFileEntries {
    LockFileEntries::read(input.as_bytes()).unwrap()
}

#[test]
fn reads_process_identifiers() {
    assert_eq!(read_pid(b"0"), Some(0));
    assert_eq!(read_pid(b"2"), Some(2));
    assert_eq!(read_pid(b"007"), Some(7));
    assert_eq!(read_pid(b"+15"), Some(15));
    assert_eq!(read_pid(b"-15"), Some(-15));
    assert_eq!(read_pid(b"-0"), Some(0));
    assert_eq!(read_pid(b"2147483647"), Some(2147483647));
    assert_eq!(read_pid(b"-2147483648"), Some(-2147483648));
    assert_eq!(read_pid(b"0000000000000000000002147483647"), Some(2147483647));
}

#[test]
fn refuses_what_is_no_process_identifier() {
    assert_eq!(read_pid(b""), None);
    assert_eq!(read_pid(b"+"), None);
    assert_eq!(read_pid(b"-"), None);
    assert_eq!(read_pid(b"12a"), None);
    assert_eq!(read_pid(b" 12"), None);
    assert_eq!(read_pid(b"12 "), None);
    assert_eq!(read_pid(b"1-2"), None);
    assert_eq!(read_pid(b"--2"), None);
    assert_eq!(read_pid(b"2147483648"), None);
    assert_eq!(read_pid(b"-2147483649"), None);
    assert_eq!(read_pid(b"99999999999999999999999999"), None);
    assert_eq!(read_pid("١٢".as_bytes()), None);
}

#[test]
fn reading_a_process_identifier_agrees_with_the_standard_library() {
    for field in ["", "0", "-0", "+0", "12", "+12", "-12", "1x", "x1", "2147483647", "2147483648",
        "-2147483648", "-2147483649", "00", "+-1", " 1"]
    {
        assert_eq!(read_pid(field.as_bytes()), field.parse::<i32>().ok(), "field {:?}", field);
    }
}

#[test]
fn writes_process_identifiers() {
    for (pid, expected) in [
        (0, "0"),
        (7, "7"),
        (10, "10"),
        (1234, "1234"),
        (-1, "-1"),
        (-120, "-120"),
        (i32::MAX, "2147483647"),
        (i32::MIN, "-2147483648"),
    ] {
        let mut out = b"x".to_vec();
        write_pid(pid, &mut out);
        assert_eq!(String::from_utf8(out).unwrap(), format!("x{}", expected));
    }
}

#[test]
fn written_process_identifiers_read_back() {
    for pid in [0, 1, 9, 10, 99, 100, 65535, -1, -10, i32::MAX, i32::MIN] {
        let mut out = Vec::new();
        write_pid(pid, &mut out);
        assert_eq!(read_pid(&out), Some(pid));
    }
}

#[test]
fn finds_the_first_byte() {
    assert_eq!(find(b"a:b:c", b':'), 1);
    assert_eq!(find(b":", b':'), 0);
    assert_eq!(find(b"abc", b':'), 3);
    assert_eq!(find(b"", b':'), 0);
}

#[test]
fn reads_one_record() {
    assert_eq!(read_record(b"serial1"), Ok(("serial1".to_string(), None)));
    assert_eq!(read_record(b"serial2:2"), Ok(("serial2".to_string(), Some(2))));
    assert_eq!(read_record(b""), Ok(("".to_string(), None)));
    assert_eq!(read_record(b":7"), Ok(("".to_string(), Some(7))));
    assert_eq!(read_record("gerät:-3".as_bytes()), Ok(("gerät".to_string(), Some(-3))));
    assert_eq!(read_record(b"a:1:rest is ignored"), Ok(("a".to_string(), Some(1))));
}

#[test]
fn refuses_a_record_with_a_bad_holder() {
    assert_eq!(read_record(b"serial:"), Err(ReadError::InvalidPid));
    assert_eq!(read_record(b"serial:abc"), Err(ReadError::InvalidPid));
    assert_eq!(read_record(b"serial: 2"), Err(ReadError::InvalidPid));
    assert_eq!(read_record(b"serial::2"), Err(ReadError::InvalidPid));
    assert_eq!(read_record(b"serial:2\r"), Err(ReadError::InvalidPid));
}

#[test]
fn refuses_a_record_that_is_not_utf8() {
    assert_eq!(read_record(b"ser\xffial"), Err(ReadError::InvalidUtf8));
    assert_eq!(read_record(b"serial:1:\xff"), Err(ReadError::InvalidUtf8));
    assert_eq!(read_record(b"\xc3"), Err(ReadError::InvalidUtf8));
}

#[test]
fn writes_one_slot() {
    let mut out = Vec::new();
    write_slot(&mut out, "serial1", None);
    out.push(b'|');
    write_slot(&mut out, "serial2", Some(22));
    assert_eq!(String::from_utf8(out).unwrap(), "serial1|serial2:22");
}

#[test]
fn reads_an_empty_ledger() {
    let entries = read("");
    assert_eq!(entries.to_string(), "");
    assert_eq!(text(&entries), "");
    assert_eq!(entries.count_available(), 0);
}

#[test]
fn reads_a_last_line_without_newline() {
    assert_eq!(text(&read("b:2\na")), "a\nb:2\n");
}

#[test]
fn reads_lines_that_end_in_carriage_return_and_newline() {
    assert_eq!(text(&read("a\r\nb:2\r\n")), "a\nb:2\n");
}

#[test]
fn keeps_a_carriage_return_that_no_newline_follows() {
    assert_eq!(text(&read("a\r")), "a\r\n");
}

#[test]
fn writes_slots_in_the_order_of_their_serials() {
    assert_eq!(text(&read("b\nc:3\na:1\n")), "a:1\nb\nc:3\n");
    assert_eq!(text(&read("serial10\nserial9\nSerial\n")), "Serial\nserial10\nserial9\n");
    assert_eq!(text(&read("é\nz\na\nab\n")), "a\nab\nz\né\n");
}

#[test]
fn later_record_of_a_serial_replaces_the_earlier() {
    assert_eq!(text(&read("a:1\nb\na\n")), "a\nb\n");
    assert_eq!(text(&read("a\na:4\n")), "a:4\n");
}

#[test]
fn an_empty_line_records_a_slot_without_serial() {
    assert_eq!(text(&read("\n")), "\n");
    assert_eq!(read("a\n\nb\n").to_string(), ",a,b");
}

#[test]
fn first_bad_line_decides_the_error() {
    assert_eq!(LockFileEntries::read(b"a:x\n\xff\n").err(), Some(ReadError::InvalidPid));
    assert_eq!(LockFileEntries::read(b"\xff\na:x\n").err(), Some(ReadError::InvalidUtf8));
    assert_eq!(LockFileEntries::read(b"a:1\nb:2\nc:\n").err(), Some(ReadError::InvalidPid));
}

#[test]
fn written_text_reads_back_and_writes_the_same() {
    for input in ["", "a\n", "a:1\n", "a:-5\nb\nc:2147483647\n", "serial1\nserial2:2\nserial3\n"] {
        assert_eq!(text(&read(input)), input);
        assert_eq!(text(&read(&text(&read(input)))), input);
    }
}
