//! The records of the index and their text form, one line per entry:
//! three offsets, the entry's type and its name, separated by single spaces.

use vstd::prelude::*;
use vstd::slice::slice_subrange;
use crate::error::{DecodeError, ExtractError};
use crate::util::{from_hex, hex_field, hex_text, lemma_hex_digits_are_digits, lemma_hex_round_trip, push_hex};

verus! {

/// The byte that separates the fields of a line.
pub const SPACE: u8 = 0x20;

/// The byte that ends a line.
pub const LINE_FEED: u8 = 0x0a;

/// The byte that may stand before the line feed and is then no part of the
/// line.
pub const CARRIAGE_RETURN: u8 = 0x0d;

/// What an archive member is.
#[derive(PartialEq, Eq, Structural, Clone, Copy, Debug)]
pub enum EntryType {
    File,
    Directory,
}

/// One archive member and where it lies in the archive.
#[derive(PartialEq, Eq, Clone, Debug)]
pub struct Entry {
    /// Offset of the first header block that belongs to the entry.
    pub header_begin: usize,
    /// Offset of the first byte after the entry's last header block.
    pub data_begin: usize,
    /// Offset of the first byte after the entry's content.
    pub data_end: usize,
    pub etype: EntryType,
    /// The entry's path, as the bytes that the archive holds.
    pub name: Vec<u8>,
}

/// An entry as a mathematical value.
pub ghost struct EntryView {
    pub header_begin: usize,
    pub data_begin: usize,
    pub data_end: usize,
    pub etype: EntryType,
    pub name: Seq<u8>,
}

impl View for Entry {
    type V = EntryView;

    open spec fn view(&self) -> EntryView {
        EntryView {
            header_begin: self.header_begin,
            data_begin: self.data_begin,
            data_end: self.data_end,
            etype: self.etype,
            name: self.name@,
        }
    }
}

impl EntryView {
    /// The offsets of an entry that an indexer wrote are in order.
    pub open spec fn well_formed(self) -> bool {
        self.header_begin <= self.data_begin <= self.data_end
    }
}

/// The letter that stands for an entry type: `F` or `D`.
pub open spec fn type_letter(etype: EntryType) -> u8 {
    match etype {
        EntryType::File => 0x46,
        EntryType::Directory => 0x44,
    }
}

/// A field, one space, and what follows them.
pub open spec fn spaced(field: Seq<u8>, rest: Seq<u8>) -> Seq<u8> {
    field + seq![SPACE] + rest
}

/// The line of the index that records `entry`, without a line feed.
pub open spec fn entry_line(entry: EntryView) -> Seq<u8> {
    spaced(
        hex_text(entry.header_begin as nat),
        spaced(
            hex_text(entry.data_begin as nat),
            spaced(
                hex_text(entry.data_end as nat),
                spaced(seq![type_letter(entry.etype)], entry.name),
            ),
        ),
    )
}

/// Position of the first `byte` in `s`, or the length of `s` if it holds
/// none.
pub open spec fn index_of_byte(s: Seq<u8>, byte: u8) -> int
    decreases s.len(),
{
    if s.len() == 0 || s[0] == byte {
        0
    } else {
        1 + index_of_byte(s.drop_first(), byte)
    }
}

/// The first field of `s`: what stands before its first space.
pub open spec fn first_field(s: Seq<u8>) -> Seq<u8> {
    s.take(index_of_byte(s, SPACE))
}

/// Whether a space ends the first field of `s`, so that more follows.
pub open spec fn has_more_fields(s: Seq<u8>) -> bool {
    index_of_byte(s, SPACE) < s.len()
}

/// What follows the first field of `s` and its space.
pub open spec fn after_first_field(s: Seq<u8>) -> Seq<u8> {
    s.skip(index_of_byte(s, SPACE) + 1)
}

/// The entry type that a type field stands for.
pub open spec fn entry_type_of(field: Seq<u8>) -> Result<EntryType, DecodeError> {
    if field == seq![0x46u8] {
        Ok(EntryType::File)
    } else if field == seq![0x44u8] {
        Ok(EntryType::Directory)
    } else {
        Err(DecodeError::InvalidEntryType)
    }
}

/// What a line of the index stands for. Its first four fields each end at
/// the next space; the name is all that follows the fourth, spaces included.
/// The fields are judged from left to right: the first one that is malformed
/// or missing decides the error.
pub open spec fn entry_of_line(line: Seq<u8>) -> Result<EntryView, DecodeError> {
    let rest1 = after_first_field(line);
    let rest2 = after_first_field(rest1);
    let rest3 = after_first_field(rest2);
    match hex_field(first_field(line)) {
        Err(e) => Err(e),
        Ok(header_begin) => if !has_more_fields(line) {
            Err(DecodeError::MissingField)
        } else {
            match hex_field(first_field(rest1)) {
                Err(e) => Err(e),
                Ok(data_begin) => if !has_more_fields(rest1) {
                    Err(DecodeError::MissingField)
                } else {
                    match hex_field(first_field(rest2)) {
                        Err(e) => Err(e),
                        Ok(data_end) => if !has_more_fields(rest2) {
                            Err(DecodeError::MissingField)
                        } else {
                            match entry_type_of(first_field(rest3)) {
                                Err(e) => Err(e),
                                Ok(etype) => if !has_more_fields(rest3) {
                                    Err(DecodeError::MissingField)
                                } else {
                                    Ok(
                                        (EntryView {
                                            header_begin,
                                            data_begin,
                                            data_end,
                                            etype,
                                            name: after_first_field(rest3),
                                        }),
                                    )
                                },
                            }
                        },
                    }
                },
            }
        },
    }
}

/// Where the first `i` bytes of `s` differ from `byte`, its first occurrence
/// is not before `i`, and it is at `i` if `byte` stands there or `s` ends
/// there.
pub proof fn lemma_index_of_byte(s: Seq<u8>, byte: u8, i: int)
    requires
        0 <= i <= s.len(),
        forall|j: int| 0 <= j < i ==> #[trigger] s[j] != byte,
    ensures
        i <= index_of_byte(s, byte) <= s.len(),
        i == s.len() || s[i] == byte ==> index_of_byte(s, byte) == i,
    decreases s.len(),
{
    if s.len() > 0 && s[0] != byte {
        let rest = s.drop_first();
        if i > 0 {
            assert forall|j: int| 0 <= j < i - 1 implies #[trigger] rest[j] != byte by {
                assert(rest[j] == s[j + 1]);
            }
            lemma_index_of_byte(rest, byte, i - 1);
        } else {
            lemma_index_of_byte(rest, byte, 0);
        }
    }
}

/// Position of the first `byte` in `s`, or the length of `s`.
pub fn find_byte(s: &[u8], byte: u8) -> (at: usize)
    ensures
        at == index_of_byte(s@, byte),
        at <= s@.len(),
{
    let mut i: usize = 0;
    while i < s.len() && s[i] != byte
        invariant
            i <= s@.len(),
            forall|j: int| 0 <= j < i ==> #[trigger] s@[j] != byte,
        decreases s@.len() - i,
    {
        i += 1;
    }
    proof {
        lemma_index_of_byte(s@, byte, i as int);
    }
    i
}

/// Splits `s` at its first space into the field before it and, if there is
/// a space, what follows it.
fn split_field(s: &[u8]) -> (parts: (&[u8], Option<&[u8]>))
    ensures
        parts.0@ == first_field(s@),
        parts.1.is_some() == has_more_fields(s@),
        parts.1.is_some() ==> parts.1.unwrap()@ == after_first_field(s@),
{
    let at = find_byte(s, SPACE);
    let field = slice_subrange(s, 0, at);
    if at < s.len() {
        (field, Some(slice_subrange(s, at + 1, s.len())))
    } else {
        (field, None)
    }
}

/// Decodes the type field of a line: `F` for a file, `D` for a directory.
pub fn parse_entry_type(data: &[u8]) -> (etype: Result<EntryType, DecodeError>)
    ensures
        etype == entry_type_of(data@),
{
    if data.len() == 1 && data[0] == 0x46 {
        assert(data@ =~= seq![0x46u8]);
        Ok(EntryType::File)
    } else if data.len() == 1 && data[0] == 0x44 {
        assert(data@ =~= seq![0x44u8]);
        assert(seq![0x44u8][0] != seq![0x46u8][0]);
        Ok(EntryType::Directory)
    } else {
        proof {
            if data@.len() == 1 {
                assert(seq![0x46u8][0] == 0x46u8 && seq![0x44u8][0] == 0x44u8);
            } else {
                assert(seq![0x46u8].len() == 1 && seq![0x44u8].len() == 1);
            }
        }
        Err(DecodeError::InvalidEntryType)
    }
}

/// Appends to `out` the line that records an entry with these fields.
pub fn push_entry_line(
    out: &mut Vec<u8>,
    header_begin: usize,
    data_begin: usize,
    data_end: usize,
    etype: EntryType,
    name: &[u8],
)
    ensures
        final(out)@ == old(out)@ + entry_line(
            (EntryView { header_begin, data_begin, data_end, etype, name: name@ }),
        ),
{
    push_hex(out, header_begin);
    out.push(SPACE);
    push_hex(out, data_begin);
    out.push(SPACE);
    push_hex(out, data_end);
    out.push(SPACE);
    let letter: u8 = match etype {
        EntryType::File => 0x46,
        EntryType::Directory => 0x44,
    };
    out.push(letter);
    out.push(SPACE);
    out.extend_from_slice(name);
    assert(final(out)@ =~= old(out)@ + entry_line(
        (EntryView { header_begin, data_begin, data_end, etype, name: name@ }),
    ));
}

impl Entry {
    /// The line of the index that records this entry, without a line feed.
    pub fn encode(&self) -> (line: Vec<u8>)
        ensures
            line@ == entry_line(self@),
    {
        let mut line: Vec<u8> = Vec::new();
        push_entry_line(
            &mut line,
            self.header_begin,
            self.data_begin,
            self.data_end,
            self.etype,
            self.name.as_slice(),
        );
        assert(line@ =~= entry_line(self@));
        line
    }
}

/// Decodes one line of the index, given without its line feed.
pub fn parse_entry_line(entry_line: &[u8]) -> (entry: Result<Entry, DecodeError>)
    ensures
        match entry {
            Ok(found) => entry_of_line(entry_line@) == Ok::<EntryView, DecodeError>(found@),
            Err(e) => entry_of_line(entry_line@) == Err::<EntryView, DecodeError>(e),
        },
{
    let (field1, more1) = split_field(entry_line);
    let header_begin = match from_hex(field1) {
        Ok(v) => v,
        Err(e) => {
            return Err(e);
        },
    };
    let rest1 = match more1 {
        Some(r) => r,
        None => {
            return Err(DecodeError::MissingField);
        },
    };
    let (field2, more2) = split_field(rest1);
    let data_begin = match from_hex(field2) {
        Ok(v) => v,
        Err(e) => {
            return Err(e);
        },
    };
    let rest2 = match more2 {
        Some(r) => r,
        None => {
            return Err(DecodeError::MissingField);
        },
    };
    let (field3, more3) = split_field(rest2);
    let data_end = match from_hex(field3) {
        Ok(v) => v,
        Err(e) => {
            return Err(e);
        },
    };
    let rest3 = match more3 {
        Some(r) => r,
        None => {
            return Err(DecodeError::MissingField);
        },
    };
    let (field4, more4) = split_field(rest3);
    let etype = match parse_entry_type(field4) {
        Ok(t) => t,
        Err(e) => {
            return Err(e);
        },
    };
    let name = match more4 {
        Some(r) => r,
        None => {
            return Err(DecodeError::MissingField);
        },
    };
    let mut owned: Vec<u8> = Vec::new();
    owned.extend_from_slice(name);
    assert(owned@ =~= name@);
    Ok(Entry { header_begin, data_begin, data_end, etype, name: owned })
}

/// A field without a space, followed by a space, is split off as it stands.
pub proof fn lemma_split_spaced(field: Seq<u8>, rest: Seq<u8>)
    requires
        forall|i: int| 0 <= i < field.len() ==> #[trigger] field[i] != SPACE,
    ensures
        first_field(spaced(field, rest)) == field,
        has_more_fields(spaced(field, rest)),
        after_first_field(spaced(field, rest)) == rest,
{
    let s = spaced(field, rest);
    assert forall|j: int| 0 <= j < field.len() implies #[trigger] s[j] != SPACE by {
        assert(s[j] == field[j]);
    }
    assert(s[field.len() as int] == SPACE);
    lemma_index_of_byte(s, SPACE, field.len() as int);
    assert(s.take(field.len() as int) =~= field);
    assert(s.skip(field.len() as int + 1) =~= rest);
}

/// An offset as the index writes it holds no space.
pub proof fn lemma_hex_text_has_no_space(value: nat)
    ensures
        forall|i: int| 0 <= i < hex_text(value).len() ==> #[trigger] hex_text(value)[i] != SPACE,
{
    lemma_hex_digits_are_digits(value, 16);
    let digits = crate::util::hex_digits(value, 16);
    assert forall|i: int| 0 <= i < hex_text(value).len() implies #[trigger] hex_text(value)[i]
        != SPACE by {
        if i >= 2 {
            assert(hex_text(value)[i] == digits[i - 2]);
            assert(crate::util::is_hex_digit(digits[i - 2]));
        }
    }
}

/// Decoding the line that records an entry gives the entry back, in all
/// its five fields and whatever bytes its name holds.
pub proof fn lemma_round_trip(entry: EntryView)
    ensures
        entry_of_line(entry_line(entry)) == Ok::<EntryView, DecodeError>(entry),
{
    let letter = seq![type_letter(entry.etype)];
    let tail3 = spaced(letter, entry.name);
    let tail2 = spaced(hex_text(entry.data_end as nat), tail3);
    let tail1 = spaced(hex_text(entry.data_begin as nat), tail2);
    lemma_hex_text_has_no_space(entry.header_begin as nat);
    lemma_hex_text_has_no_space(entry.data_begin as nat);
    lemma_hex_text_has_no_space(entry.data_end as nat);
    lemma_split_spaced(hex_text(entry.header_begin as nat), tail1);
    lemma_split_spaced(hex_text(entry.data_begin as nat), tail2);
    lemma_split_spaced(hex_text(entry.data_end as nat), tail3);
    lemma_split_spaced(letter, entry.name);
    lemma_hex_round_trip(entry.header_begin);
    lemma_hex_round_trip(entry.data_begin);
    lemma_hex_round_trip(entry.data_end);
    assert(seq![0x44u8][0] != seq![0x46u8][0]);
}

/// Whether `line` ends with the bytes of `name`.
pub open spec fn ends_with(line: Seq<u8>, name: Seq<u8>) -> bool {
    name.len() <= line.len() && line.skip(line.len() - name.len()) == name
}

/// The first line of a text that is not empty: what stands before its first
/// line feed, or all of it if it holds none. A carriage return directly
/// before the line feed is no part of the line.
pub open spec fn first_line(text: Seq<u8>) -> Seq<u8> {
    let end = index_of_byte(text, LINE_FEED);
    if 0 < end < text.len() && text[end - 1] == CARRIAGE_RETURN {
        text.take(end - 1)
    } else {
        text.take(end)
    }
}

/// What follows the first line of a text and its line feed.
pub open spec fn after_first_line(text: Seq<u8>) -> Seq<u8> {
    let end = index_of_byte(text, LINE_FEED);
    if end < text.len() {
        text.skip(end + 1)
    } else {
        Seq::empty()
    }
}

/// The lines of a text, in order. A text that ends in a line feed has no
/// empty line after it.
pub open spec fn lines_of(text: Seq<u8>) -> Seq<Seq<u8>>
    decreases text.len(),
    via lines_of_decreases
{
    if text.len() == 0 {
        Seq::empty()
    } else {
        seq![first_line(text)] + lines_of(after_first_line(text))
    }
}

#[via_fn]
proof fn lines_of_decreases(text: Seq<u8>) {
    lemma_index_of_byte(text, LINE_FEED, 0);
}

/// The last of `lines` that ends with `name`, if there is one.
pub open spec fn last_match(lines: Seq<Seq<u8>>, name: Seq<u8>) -> Option<Seq<u8>>
    decreases lines.len(),
{
    if lines.len() == 0 {
        None
    } else if ends_with(lines.last(), name) {
        Some(lines.last())
    } else {
        last_match(lines.drop_last(), name)
    }
}

/// The last match among a line and the lines after it is the last match
/// among those after it, or else the line itself if it matches.
pub proof fn lemma_last_match_front(line: Seq<u8>, rest: Seq<Seq<u8>>, name: Seq<u8>)
    ensures
        last_match(seq![line] + rest, name) == match last_match(rest, name) {
            Some(found) => Some(found),
            None => if ends_with(line, name) {
                Some(line)
            } else {
                None
            },
        },
    decreases rest.len(),
{
    let all = seq![line] + rest;
    if rest.len() == 0 {
        assert(all.last() == line);
        assert(all.drop_last() =~= Seq::<Seq<u8>>::empty());
        assert(last_match(all.drop_last(), name).is_none());
        assert(last_match(rest, name).is_none());
    } else {
        assert(all.last() == rest.last());
        assert(all.drop_last() =~= seq![line] + rest.drop_last());
        lemma_last_match_front(line, rest.drop_last(), name);
    }
}

/// Tells whether `line` ends with the bytes of `name`.
pub fn line_ends_with(line: &[u8], name: &[u8]) -> (matches: bool)
    ensures
        matches == ends_with(line@, name@),
{
    if name.len() > line.len() {
        return false;
    }
    let shift = line.len() - name.len();
    let mut i: usize = 0;
    while i < name.len()
        invariant
            shift + name@.len() == line@.len(),
            line@.len() <= usize::MAX,
            i <= name@.len(),
            forall|j: int| 0 <= j < i ==> line@[shift + j] == name@[j],
        decreases name@.len() - i,
    {
        if line[shift + i] != name[i] {
            assert(line@.skip(shift as int)[i as int] != name@[i as int]);
            return false;
        }
        i += 1;
    }
    assert(line@.skip(shift as int) =~= name@);
    true
}

/// Finds the line of the index `index` that records `entry_name`: the last
/// of its lines that ends with the bytes of the name.
pub fn read_entry_line<'a>(index: &'a [u8], entry_name: &[u8]) -> (line: Result<
    &'a [u8],
    ExtractError,
>)
    ensures
        match line {
            Ok(found) => last_match(lines_of(index@), entry_name@) == Some(found@),
            Err(e) => e == ExtractError::NotFound && last_match(lines_of(index@), entry_name@)
                .is_none(),
        },
{
    let len = index.len();
    let mut pos: usize = 0;
    let mut best: Option<&'a [u8]> = None;
    assert(index@.skip(0) =~= index@);
    while pos < len
        invariant
            len == index@.len(),
            pos <= len,
            last_match(lines_of(index@), entry_name@) == match last_match(
                lines_of(index@.skip(pos as int)),
                entry_name@,
            ) {
                Some(found) => Some(found),
                None => match best {
                    Some(line) => Some(line@),
                    None => None,
                },
            },
        decreases len - pos,
    {
        let rest = slice_subrange(index, pos, len);
        assert(rest@ =~= index@.skip(pos as int));
        let end = find_byte(rest, LINE_FEED);
        let line_end = if 0 < end && end < rest.len() && rest[end - 1] == CARRIAGE_RETURN {
            end - 1
        } else {
            end
        };
        let line = slice_subrange(rest, 0, line_end);
        let next = if end < rest.len() {
            pos + end + 1
        } else {
            len
        };
        proof {
            assert(line@ == first_line(rest@));
            assert(index@.skip(next as int) =~= after_first_line(rest@));
            lemma_last_match_front(line@, lines_of(after_first_line(rest@)), entry_name@);
        }
        if line_ends_with(line, entry_name) {
            best = Some(line);
        }
        pos = next;
    }
    match best {
        Some(line) => Ok(line),
        None => Err(ExtractError::NotFound),
    }
}

} // verus!
