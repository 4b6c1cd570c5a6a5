use ratatar::error::{DecodeError, ExtractError};
use ratatar::index::{
    find_byte, line_ends_with, parse_entry_line, parse_entry_type, push_entry_line,
    read_entry_line, Entry, EntryType,
};
use ratatar::util::{from_hex, push_hex};

fn entry(header_begin: usize, data_begin: usize, data_end: usize, etype: EntryType, name: &[u8]) -> Entry {
    Entry { header_begin, data_begin, data_end, etype, name: name.to_vec() }
}

#[test]
fn hex_is_decoded() {
    assert_eq!(from_hex(b"0x0000000000000000"), Ok(0));
    assert_eq!(from_hex(b"0x000000000000040a"), Ok(1034));
    assert_eq!(from_hex(b"0x000000000000040A"), Ok(1034));
    assert_eq!(from_hex(b"0x1f"), Ok(31));
    assert_eq!(from_hex(b"0xabcdef"), Ok(0xabcdef));
    assert_eq!(from_hex(b"0xABCDEF"), Ok(0xabcdef));
    assert_eq!(from_hex(b"0x0123456789"), Ok(0x0123456789usize));
    assert_eq!(from_hex(b"0x"), Ok(0));
}

#[test]
fn hex_needs_its_prefix() {
    assert_eq!(from_hex(b""), Err(DecodeError::MissingHexPrefix));
    assert_eq!(from_hex(b"0"), Err(DecodeError::MissingHexPrefix));
    assert_eq!(from_hex(b"1f"), Err(DecodeError::MissingHexPrefix));
    assert_eq!(from_hex(b"0X1f"), Err(DecodeError::MissingHexPrefix));
    assert_eq!(from_hex(b"x01f"), Err(DecodeError::MissingHexPrefix));
    assert_eq!(from_hex(b"001f"), Err(DecodeError::MissingHexPrefix));
}

#[test]
fn hex_reports_the_first_bad_digit() {
    assert_eq!(from_hex(b"0x12g4"), Err(DecodeError::InvalidHexDigit('g')));
    assert_eq!(from_hex(b"0x12G4z"), Err(DecodeError::InvalidHexDigit('G')));
    assert_eq!(from_hex(b"0x 1"), Err(DecodeError::InvalidHexDigit(' ')));
    assert_eq!(from_hex(b"0x0x1"), Err(DecodeError::InvalidHexDigit('x')));
    assert_eq!(from_hex(b"0x/"), Err(DecodeError::InvalidHexDigit('/')));
    assert_eq!(from_hex(b"0x:"), Err(DecodeError::InvalidHexDigit(':')));
    assert_eq!(from_hex(b"0x@"), Err(DecodeError::InvalidHexDigit('@')));
    assert_eq!(from_hex(b"0x`"), Err(DecodeError::InvalidHexDigit('`')));
    assert_eq!(
        from_hex(b"0xfffffffffffffffffffffffffffffq"),
        Err(DecodeError::InvalidHexDigit('q'))
    );
}

#[test]
fn hex_must_fit() {
    let largest = format!("{:#x}", usize::MAX);
    assert_eq!(from_hex(largest.as_bytes()), Ok(usize::MAX));
    let padded = format!("0x0000{:x}", usize::MAX);
    assert_eq!(from_hex(padded.as_bytes()), Ok(usize::MAX));
    let too_large = format!("{:#x}0", usize::MAX);
    assert_eq!(from_hex(too_large.as_bytes()), Err(DecodeError::ValueTooLarge));
    assert_eq!(
        from_hex(b"0x10000000000000000000000000000000000"),
        Err(DecodeError::ValueTooLarge)
    );
}

#[test]
fn hex_is_written_in_18_characters() {
    let mut out = b"> ".to_vec();
    push_hex(&mut out, 0);
    assert_eq!(out, b"> 0x0000000000000000".to_vec());
    let mut out = Vec::new();
    push_hex(&mut out, 1034);
    assert_eq!(out, b"0x000000000000040a".to_vec());
    let mut out = Vec::new();
    push_hex(&mut out, 0xABCDEF);
    assert_eq!(out, b"0x0000000000abcdef".to_vec());
    let mut out = Vec::new();
    push_hex(&mut out, usize::MAX);
    assert_eq!(out, format!("{:#018x}", usize::MAX).into_bytes());
    assert_eq!(out.len(), 18);
}

#[test]
fn hex_round_trip_on_values() {
    for value in [0usize, 1, 15, 16, 255, 256, 4095, 65535, 0x1234_5678, usize::MAX - 1, usize::MAX] {
        let mut out = Vec::new();
        push_hex(&mut out, value);
        assert_eq!(out, format!("{:#018x}", value).into_bytes());
        assert_eq!(from_hex(&out), Ok(value));
    }
}

#[test]
fn entry_types() {
    assert_eq!(parse_entry_type(b"F"), Ok(EntryType::File));
    assert_eq!(parse_entry_type(b"D"), Ok(EntryType::Directory));
    assert_eq!(parse_entry_type(b"f"), Err(DecodeError::InvalidEntryType));
    assert_eq!(parse_entry_type(b""), Err(DecodeError::InvalidEntryType));
    assert_eq!(parse_entry_type(b"FD"), Err(DecodeError::InvalidEntryType));
    assert_eq!(parse_entry_type(b"X"), Err(DecodeError::InvalidEntryType));
}

#[test]
fn entry_is_encoded() {
    let e = entry(512, 1024, 1034, EntryType::File, b"d/f.txt");
    assert_eq!(
        e.encode(),
        b"0x0000000000000200 0x0000000000000400 0x000000000000040a F d/f.txt".to_vec()
    );
    let e = entry(0, 512, 512, EntryType::Directory, b"d/");
    assert_eq!(
        e.encode(),
        b"0x0000000000000000 0x0000000000000200 0x0000000000000200 D d/".to_vec()
    );
}

#[test]
fn entry_line_is_appended() {
    let mut out = b"x\n".to_vec();
    push_entry_line(&mut out, 1, 2, 3, EntryType::File, b"a b");
    assert_eq!(
        out,
        b"x\n0x0000000000000001 0x0000000000000002 0x0000000000000003 F a b".to_vec()
    );
}

#[test]
fn entry_is_decoded() {
    let line = b"0x0000000000000200 0x0000000000000400 0x000000000000040a F d/f.txt";
    assert_eq!(
        parse_entry_line(line),
        Ok(entry(512, 1024, 1034, EntryType::File, b"d/f.txt"))
    );
    let line = b"0x0 0x200 0x200 D d/";
    assert_eq!(parse_entry_line(line), Ok(entry(0, 512, 512, EntryType::Directory, b"d/")));
}

#[test]
fn name_keeps_its_spaces() {
    let line = b"0x1 0x2 0x3 F my file  name.txt ";
    assert_eq!(
        parse_entry_line(line),
        Ok(entry(1, 2, 3, EntryType::File, b"my file  name.txt "))
    );
    let line = b"0x1 0x2 0x3 F ";
    assert_eq!(parse_entry_line(line), Ok(entry(1, 2, 3, EntryType::File, b"")));
    let line = b"0x1 0x2 0x3 F  x";
    assert_eq!(parse_entry_line(line), Ok(entry(1, 2, 3, EntryType::File, b" x")));
}

#[test]
fn round_trip_on_entries() {
    let names: [&[u8]; 6] = [b"d/f.txt", b"", b" ", b"a b c", b"0x10 F x", b"caf\xc3\xa9/\xff"];
    for name in names {
        for etype in [EntryType::File, EntryType::Directory] {
            let e = entry(0x1000, 0x1200, 0x1234_5678, etype, name);
            assert_eq!(parse_entry_line(&e.encode()), Ok(e));
        }
    }
    let e = entry(0, usize::MAX, usize::MAX, EntryType::File, b"big");
    assert_eq!(parse_entry_line(&e.encode()), Ok(e));
}

#[test]
fn missing_fields_are_reported() {
    assert_eq!(parse_entry_line(b"0x1"), Err(DecodeError::MissingField));
    assert_eq!(parse_entry_line(b"0x1 0x2"), Err(DecodeError::MissingField));
    assert_eq!(parse_entry_line(b"0x1 0x2 0x3"), Err(DecodeError::MissingField));
    assert_eq!(parse_entry_line(b"0x1 0x2 0x3 F"), Err(DecodeError::MissingField));
    assert_eq!(parse_entry_line(b""), Err(DecodeError::MissingHexPrefix));
}

#[test]
fn first_bad_field_decides() {
    assert_eq!(parse_entry_line(b"1 0x2 0x3 F n"), Err(DecodeError::MissingHexPrefix));
    assert_eq!(parse_entry_line(b"0xg"), Err(DecodeError::InvalidHexDigit('g')));
    assert_eq!(parse_entry_line(b"0x1 0xh 0xi Q n"), Err(DecodeError::InvalidHexDigit('h')));
    assert_eq!(parse_entry_line(b"0x1 0x2 0xi Q n"), Err(DecodeError::InvalidHexDigit('i')));
    assert_eq!(parse_entry_line(b"0x1 0x2 0x3 Q n"), Err(DecodeError::InvalidEntryType));
    assert_eq!(parse_entry_line(b"0x1 0x2 0x3 Q"), Err(DecodeError::InvalidEntryType));
    assert_eq!(parse_entry_line(b"0x1  0x2 0x3 F n"), Err(DecodeError::MissingHexPrefix));
    assert_eq!(parse_entry_line(b"0x1 0x2 0x3  F n"), Err(DecodeError::InvalidEntryType));
    let too_large = format!("0x1 {:#x}0 0x3 F n", usize::MAX);
    assert_eq!(parse_entry_line(too_large.as_bytes()), Err(DecodeError::ValueTooLarge));
}

#[test]
fn first_byte_is_found() {
    assert_eq!(find_byte(b"abc def", b' '), 3);
    assert_eq!(find_byte(b" abc", b' '), 0);
    assert_eq!(find_byte(b"abc", b' '), 3);
    assert_eq!(find_byte(b"", b' '), 0);
    assert_eq!(find_byte(b"a\nb\n", b'\n'), 1);
}

#[test]
fn suffix_test() {
    assert!(line_ends_with(b"0x1 0x2 0x3 F d/f.txt", b"d/f.txt"));
    assert!(line_ends_with(b"0x1 0x2 0x3 F d/f.txt", b"f.txt"));
    assert!(line_ends_with(b"abc", b""));
    assert!(line_ends_with(b"", b""));
    assert!(line_ends_with(b"abc", b"abc"));
    assert!(!line_ends_with(b"abc", b"xabc"));
    assert!(!line_ends_with(b"abc", b"ab"));
    assert!(!line_ends_with(b"0x1 0x2 0x3 F d/f.txt", b"d/f.tx"));
}

#[test]
fn last_matching_line_wins() {
    let index = b"0x0 0x200 0x200 D d/\n0x200 0x400 0x40a F d/f.txt\n0x600 0x800 0x80b F d/f.txt\n";
    assert_eq!(read_entry_line(index, b"d/f.txt"), Ok(&b"0x600 0x800 0x80b F d/f.txt"[..]));
    assert_eq!(read_entry_line(index, b"d/"), Ok(&b"0x0 0x200 0x200 D d/"[..]));
    assert_eq!(read_entry_line(index, b"missing"), Err(ExtractError::NotFound));
}

#[test]
fn match_is_a_suffix_of_the_line() {
    let index = b"0x0 0x200 0x20a F a/name\n0x400 0x600 0x60a F b/other-name\n";
    assert_eq!(read_entry_line(index, b"name"), Ok(&b"0x400 0x600 0x60a F b/other-name"[..]));
    assert_eq!(read_entry_line(index, b"a/name"), Ok(&b"0x0 0x200 0x20a F a/name"[..]));
    assert_eq!(read_entry_line(index, b""), Ok(&b"0x400 0x600 0x60a F b/other-name"[..]));
}

#[test]
fn lines_end_at_line_feeds() {
    assert_eq!(read_entry_line(b"", b""), Err(ExtractError::NotFound));
    assert_eq!(read_entry_line(b"", b"x"), Err(ExtractError::NotFound));
    assert_eq!(read_entry_line(b"abc", b"bc"), Ok(&b"abc"[..]));
    assert_eq!(read_entry_line(b"abc\n", b"bc"), Ok(&b"abc"[..]));
    assert_eq!(read_entry_line(b"abc\n", b""), Ok(&b"abc"[..]));
    assert_eq!(read_entry_line(b"abc\n\n", b""), Ok(&b""[..]));
    assert_eq!(read_entry_line(b"\n", b""), Ok(&b""[..]));
    assert_eq!(read_entry_line(b"abc\n\n", b"bc"), Ok(&b"abc"[..]));
    assert_eq!(read_entry_line(b"abc\nxbc", b"bc"), Ok(&b"xbc"[..]));
    assert_eq!(read_entry_line(b"abc\nxbc", b"bc\n"), Err(ExtractError::NotFound));
    assert_eq!(read_entry_line(b"abc\r\nxyz\n", b"bc"), Ok(&b"abc"[..]));
    assert_eq!(read_entry_line(b"abc\r", b"bc"), Err(ExtractError::NotFound));
    assert_eq!(read_entry_line(b"abc\r", b"bc\r"), Ok(&b"abc\r"[..]));
    assert_eq!(read_entry_line(b"\r\n", b"\r"), Err(ExtractError::NotFound));
    assert_eq!(read_entry_line(b"a\r\r\n", b"a\r"), Ok(&b"a\r"[..]));
}
