//! Random access: finding one file through the index and copying its
//! content out of the archive.

use vstd::prelude::*;
use vstd::slice::slice_subrange;
use vstd::string::StringExecFns;
use crate::error::ExtractError;
use crate::index::{
    entry_of_line, last_match, lines_of, parse_entry_line, read_entry_line, Entry, EntryType,
    EntryView,
};

verus! {

/// Largest number of bytes that are copied at once.
pub const COPY_BUF_SIZE: usize = 8192;

/// The path of the index that belongs to the archive at `archive_path`.
pub fn index_path(archive_path: &str) -> (path: String)
    ensures
        path@ == archive_path@ + ".index"@,
{
    let mut path = String::from_str(archive_path);
    path.append(".index");
    path
}

/// The entry that the index `index` records for `name`: what the last line
/// that ends with `name` stands for.
pub open spec fn find_spec(index: Seq<u8>, name: Seq<u8>) -> Result<EntryView, ExtractError> {
    match last_match(lines_of(index), name) {
        None => Err(ExtractError::NotFound),
        Some(line) => match entry_of_line(line) {
            Err(e) => Err(ExtractError::Decode(e)),
            Ok(entry) => Ok(entry),
        },
    }
}

/// Looks `entry_name` up in the index `index`.
pub fn find(index: &[u8], entry_name: &[u8]) -> (entry: Result<Entry, ExtractError>)
    ensures
        match entry {
            Ok(found) => find_spec(index@, entry_name@) == Ok::<EntryView, ExtractError>(found@),
            Err(e) => find_spec(index@, entry_name@) == Err::<EntryView, ExtractError>(e),
        },
{
    let line = match read_entry_line(index, entry_name) {
        Ok(line) => line,
        Err(e) => {
            return Err(e);
        },
    };
    match parse_entry_line(line) {
        Ok(entry) => Ok(entry),
        Err(e) => Err(ExtractError::Decode(e)),
    }
}

/// Where the content of `entry` begins in the archive and how long it is.
/// Only a regular file has content to extract, and it cannot end before it
/// begins.
pub open spec fn span_of(entry: EntryView) -> Result<(usize, usize), ExtractError> {
    if entry.etype != EntryType::File {
        Err(ExtractError::NotAFile)
    } else if entry.data_end < entry.data_begin {
        Err(ExtractError::InvalidRange)
    } else {
        Ok((entry.data_begin, (entry.data_end - entry.data_begin) as usize))
    }
}

/// The offset at which the content of the file `entry` begins, and its
/// length.
pub fn file_span(entry: &Entry) -> (span: Result<(usize, usize), ExtractError>)
    ensures
        span == span_of(entry@),
{
    match entry.etype {
        EntryType::Directory => Err(ExtractError::NotAFile),
        EntryType::File => if entry.data_end < entry.data_begin {
            Err(ExtractError::InvalidRange)
        } else {
            Ok((entry.data_begin, entry.data_end - entry.data_begin))
        },
    }
}

/// Number of bytes to copy next when `remaining` bytes are left to copy.
pub fn chunk_len(remaining: usize) -> (len: usize)
    ensures
        len == if remaining < COPY_BUF_SIZE {
            remaining
        } else {
            COPY_BUF_SIZE
        },
{
    if remaining < COPY_BUF_SIZE {
        remaining
    } else {
        COPY_BUF_SIZE
    }
}

/// What copying `len` bytes from `reader` writes: the first `len` bytes, if
/// the reader holds that many. Else the copy fails at the first chunk that the
/// reader cannot fill, after the whole chunks before it.
pub open spec fn copied(reader: Seq<u8>, len: nat) -> Seq<u8> {
    if len <= reader.len() {
        reader.take(len as int)
    } else {
        reader.take(reader.len() - reader.len() % 8192)
    }
}

/// Copies `len` bytes from the start of `reader` to the end of `writer`, in
/// chunks of at most `COPY_BUF_SIZE` bytes. A reader that ends before a chunk
/// is complete makes the copy fail, with nothing of that chunk written.
pub fn extract_file_to(reader: &[u8], writer: &mut Vec<u8>, len: usize) -> (result: Result<
    (),
    ExtractError,
>)
    ensures
        final(writer)@ == old(writer)@ + copied(reader@, len as nat),
        result == if len <= reader@.len() {
            Ok::<(), ExtractError>(())
        } else {
            Err::<(), ExtractError>(ExtractError::ReadFailed)
        },
{
    let mut done: usize = 0;
    assert(writer@ + reader@.take(0) =~= writer@);
    while done < len
        invariant
            done <= len,
            done <= reader@.len(),
            done % 8192 == 0 || done == len,
            writer@ == old(writer)@ + reader@.take(done as int),
        decreases len - done,
    {
        let read_len = chunk_len(len - done);
        if reader.len() - done < read_len {
            assert(reader@.len() - reader@.len() % 8192 == done);
            return Err(ExtractError::ReadFailed);
        }
        writer.extend_from_slice(slice_subrange(reader, done, done + read_len));
        assert(writer@ =~= old(writer)@ + reader@.take(done + read_len));
        done = done + read_len;
    }
    Ok(())
}

/// What extracting `name` writes and how it ends. The entry is looked up in
/// the index and must be a file; its content is copied from the archive,
/// starting at the offset that the index gives. An archive that ends before
/// that offset is read as holding nothing there.
pub open spec fn extract_spec(index: Seq<u8>, archive: Seq<u8>, name: Seq<u8>) -> (
    Seq<u8>,
    Result<(), ExtractError>,
) {
    match find_spec(index, name) {
        Err(e) => (Seq::empty(), Err(e)),
        Ok(entry) => match span_of(entry) {
            Err(e) => (Seq::empty(), Err(e)),
            Ok((begin, len)) => {
                let reader = if begin <= archive.len() {
                    archive.skip(begin as int)
                } else {
                    Seq::empty()
                };
                (
                    copied(reader, len as nat),
                    if len <= reader.len() {
                        Ok(())
                    } else {
                        Err(ExtractError::ReadFailed)
                    },
                )
            },
        },
    }
}

/// Extracts the file `entry_name` from `archive` with the help of the
/// archive's index, and appends its content to `writer`.
pub fn extract(index: &[u8], archive: &[u8], entry_name: &[u8], writer: &mut Vec<u8>) -> (result:
    Result<(), ExtractError>)
    ensures
        final(writer)@ == old(writer)@ + extract_spec(index@, archive@, entry_name@).0,
        result == extract_spec(index@, archive@, entry_name@).1,
{
    assert(writer@ + Seq::<u8>::empty() =~= writer@);
    let entry = match find(index, entry_name) {
        Ok(entry) => entry,
        Err(e) => {
            return Err(e);
        },
    };
    let (begin, len) = match file_span(&entry) {
        Ok(span) => span,
        Err(e) => {
            return Err(e);
        },
    };
    let reader = if begin <= archive.len() {
        slice_subrange(archive, begin, archive.len())
    } else {
        slice_subrange(archive, 0, 0)
    };
    proof {
        if begin <= archive@.len() {
            assert(reader@ =~= archive@.skip(begin as int));
        } else {
            assert(reader@ =~= Seq::<u8>::empty());
        }
    }
    extract_file_to(reader, writer, len)
}

/// Extracting the same entry of the same archive twice writes the same
/// bytes both times, whatever the two outputs held before.
pub proof fn lemma_extraction_repeats(
    index: Seq<u8>,
    archive: Seq<u8>,
    name: Seq<u8>,
    first_before: Seq<u8>,
    first_after: Seq<u8>,
    second_before: Seq<u8>,
    second_after: Seq<u8>,
)
    requires
        first_after == first_before + extract_spec(index, archive, name).0,
        second_after == second_before + extract_spec(index, archive, name).0,
    ensures
        first_after.skip(first_before.len() as int) == second_after.skip(
            second_before.len() as int,
        ),
        first_before.len() == 0 && second_before.len() == 0 ==> first_after == second_after,
{
    let written = extract_spec(index, archive, name).0;
    assert(first_after.skip(first_before.len() as int) =~= written);
    assert(second_after.skip(second_before.len() as int) =~= written);
    if first_before.len() == 0 && second_before.len() == 0 {
        assert(first_after =~= written);
        assert(second_after =~= written);
    }
}

} // verus!
