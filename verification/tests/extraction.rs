use ratatar::error::{DecodeError, ExtractError};
use ratatar::extract::{
    chunk_len, extract, extract_file_to, file_span, find, index_path, COPY_BUF_SIZE,
};
use ratatar::index::{Entry, EntryType};
use ratatar::tar_stream::index;

fn header(name: &[u8], size: usize, flag: u8) -> Vec<u8> {
    let mut block = vec![0u8; 512];
    block[..name.len()].copy_from_slice(name);
    let octal = format!("{:011o}", size);
    block[124..135].copy_from_slice(octal.as_bytes());
    block[156] = flag;
    block[257..263].copy_from_slice(b"ustar ");
    block
}

fn file(name: &[u8], content: &[u8]) -> Vec<u8> {
    let mut bytes = header(name, content.len(), b'0');
    bytes.extend_from_slice(content);
    while bytes.len() % 512 != 0 {
        bytes.push(0);
    }
    bytes
}

fn small_archive() -> Vec<u8> {
    let mut archive = header(b"d/", 0, b'5');
    archive.extend_from_slice(&file(b"d/f.txt", b"0123456789"));
    archive.extend_from_slice(&vec![0u8; 1024]);
    archive
}

fn index_of(archive: &[u8]) -> Vec<u8> {
    let mut out = Vec::new();
    assert_eq!(index(archive, &mut out), Ok(()));
    out
}

fn pattern(len: usize) -> Vec<u8> {
    (0..len).map(|i| (i * 7 + i / 256) as u8).collect()
}

#[test]
fn index_path_appends_its_suffix() {
    assert_eq!(index_path("archive.tar"), "archive.tar.index");
    assert_eq!(index_path(""), ".index");
    assert_eq!(index_path("dir/b\u{e4}nd.tar"), "dir/b\u{e4}nd.tar.index");
}

#[test]
fn copy_buffer_is_8192_bytes() {
    assert_eq!(COPY_BUF_SIZE, 8192);
    assert_eq!(chunk_len(0), 0);
    assert_eq!(chunk_len(10), 10);
    assert_eq!(chunk_len(8191), 8191);
    assert_eq!(chunk_len(8192), 8192);
    assert_eq!(chunk_len(8193), 8192);
    assert_eq!(chunk_len(usize::MAX), 8192);
}

#[test]
fn file_is_extracted() {
    let archive = small_archive();
    let index = index_of(&archive);
    let mut out = Vec::new();
    assert_eq!(extract(&index, &archive, b"d/f.txt", &mut out), Ok(()));
    assert_eq!(out, b"0123456789".to_vec());
}

#[test]
fn extraction_repeats() {
    let mut archive = file(b"a.bin", &pattern(20000));
    archive.extend_from_slice(&file(b"b.bin", &pattern(300)));
    archive.extend_from_slice(&vec![0u8; 1024]);
    let index = index_of(&archive);
    let mut first = Vec::new();
    let mut second = Vec::new();
    assert_eq!(extract(&index, &archive, b"a.bin", &mut first), Ok(()));
    assert_eq!(extract(&index, &archive, b"a.bin", &mut second), Ok(()));
    assert_eq!(first, second);
    assert_eq!(first, pattern(20000));
    let mut third = b"before".to_vec();
    assert_eq!(extract(&index, &archive, b"b.bin", &mut third), Ok(()));
    assert_eq!(&third[..6], b"before");
    assert_eq!(&third[6..], &pattern(300)[..]);
}

#[test]
fn directory_is_not_extracted() {
    let archive = small_archive();
    let index = index_of(&archive);
    let mut out = Vec::new();
    assert_eq!(extract(&index, &archive, b"d/", &mut out), Err(ExtractError::NotAFile));
    assert!(out.is_empty());
}

#[test]
fn unknown_name_is_not_found() {
    let archive = small_archive();
    let index = index_of(&archive);
    let mut out = Vec::new();
    assert_eq!(extract(&index, &archive, b"d/g.txt", &mut out), Err(ExtractError::NotFound));
    assert_eq!(extract(b"", &archive, b"d/f.txt", &mut out), Err(ExtractError::NotFound));
    assert!(out.is_empty());
}

#[test]
fn malformed_line_is_reported() {
    let mut out = Vec::new();
    assert_eq!(
        extract(b"0x0 0x200 0x20z F name\n", b"", b"name", &mut out),
        Err(ExtractError::Decode(DecodeError::InvalidHexDigit('z')))
    );
    assert_eq!(
        extract(b"0x0 0x200 0x20a X name\n", b"", b"name", &mut out),
        Err(ExtractError::Decode(DecodeError::InvalidEntryType))
    );
    assert_eq!(
        extract(b"name\n", b"", b"name", &mut out),
        Err(ExtractError::Decode(DecodeError::MissingHexPrefix))
    );
    assert_eq!(
        extract(b"0x0 0x200 name\n", b"", b"name", &mut out),
        Err(ExtractError::Decode(DecodeError::MissingHexPrefix))
    );
    assert_eq!(
        extract(b"0x0 0x200 0x20a F\n", b"", b"F", &mut out),
        Err(ExtractError::Decode(DecodeError::MissingField))
    );
    assert!(out.is_empty());
}

#[test]
fn later_entry_of_the_same_name_wins() {
    let mut archive = file(b"same", b"first");
    archive.extend_from_slice(&file(b"same", b"second"));
    archive.extend_from_slice(&vec![0u8; 1024]);
    let index = index_of(&archive);
    let mut out = Vec::new();
    assert_eq!(extract(&index, &archive, b"same", &mut out), Ok(()));
    assert_eq!(out, b"second".to_vec());
}

#[test]
fn entry_is_found() {
    let archive = small_archive();
    let index = index_of(&archive);
    assert_eq!(
        find(&index, b"d/f.txt"),
        Ok(Entry {
            header_begin: 512,
            data_begin: 1024,
            data_end: 1034,
            etype: EntryType::File,
            name: b"d/f.txt".to_vec(),
        })
    );
    assert_eq!(
        find(&index, b"d/"),
        Ok(Entry {
            header_begin: 0,
            data_begin: 512,
            data_end: 512,
            etype: EntryType::Directory,
            name: b"d/".to_vec(),
        })
    );
    assert_eq!(find(&index, b"nothing"), Err(ExtractError::NotFound));
}

#[test]
fn span_of_an_entry() {
    let mut entry = Entry {
        header_begin: 512,
        data_begin: 1024,
        data_end: 1034,
        etype: EntryType::File,
        name: b"f".to_vec(),
    };
    assert_eq!(file_span(&entry), Ok((1024, 10)));
    entry.data_end = 1024;
    assert_eq!(file_span(&entry), Ok((1024, 0)));
    entry.data_end = 1023;
    assert_eq!(file_span(&entry), Err(ExtractError::InvalidRange));
    entry.etype = EntryType::Directory;
    assert_eq!(file_span(&entry), Err(ExtractError::NotAFile));
    entry.data_end = 1034;
    assert_eq!(file_span(&entry), Err(ExtractError::NotAFile));
}

#[test]
fn copy_takes_exactly_its_length() {
    let reader = pattern(30000);
    for len in [0usize, 1, 10, 8191, 8192, 8193, 16384, 20000, 30000] {
        let mut out = b"head".to_vec();
        assert_eq!(extract_file_to(&reader, &mut out, len), Ok(()));
        assert_eq!(&out[..4], b"head");
        assert_eq!(&out[4..], &reader[..len]);
    }
}

#[test]
fn short_reader_fails_the_copy() {
    let reader = pattern(20000);
    let mut out = Vec::new();
    assert_eq!(extract_file_to(&reader, &mut out, 20001), Err(ExtractError::ReadFailed));
    assert_eq!(out, reader[..16384].to_vec());
    let mut out = Vec::new();
    assert_eq!(extract_file_to(&reader[..100], &mut out, 101), Err(ExtractError::ReadFailed));
    assert!(out.is_empty());
    let mut out = Vec::new();
    assert_eq!(extract_file_to(&reader[..8192], &mut out, 8193), Err(ExtractError::ReadFailed));
    assert_eq!(out, reader[..8192].to_vec());
    let mut out = Vec::new();
    assert_eq!(extract_file_to(b"", &mut out, 1), Err(ExtractError::ReadFailed));
    assert!(out.is_empty());
    assert_eq!(extract_file_to(b"", &mut out, 0), Ok(()));
}

#[test]
fn archive_shorter_than_the_index_says() {
    let archive = small_archive();
    let index = index_of(&archive);
    let mut out = Vec::new();
    assert_eq!(extract(&index, &archive[..1030], b"d/f.txt", &mut out), Err(ExtractError::ReadFailed));
    assert!(out.is_empty());
    assert_eq!(extract(&index, &archive[..100], b"d/f.txt", &mut out), Err(ExtractError::ReadFailed));
    assert!(out.is_empty());
    let mut out = Vec::new();
    assert_eq!(extract(b"0x0 0x200 0x200 F empty\n", b"", b"empty", &mut out), Ok(()));
    assert!(out.is_empty());
    assert_eq!(
        extract(b"0x0 0x200 0x1ff F odd\n", &archive, b"odd", &mut out),
        Err(ExtractError::InvalidRange)
    );
}
