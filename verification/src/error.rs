//! The ways in which indexing, decoding an index line and extracting can fail.

use vstd::prelude::*;
use vstd::string::StringExecFns;

verus! {

/// A deviation of the archive from the GNU tar layout. Each one ends
/// indexing at once.
#[derive(PartialEq, Eq, Structural, Clone, Copy, Debug)]
pub enum FormatError {
    /// A header block carries neither the GNU magic nor only zero bytes.
    UnsupportedFormat,
    /// The type flag of a header block is none of the supported ones.
    UnsupportedBlockType(char),
    /// The size field uses the binary encoding (high bit of its first byte).
    BinarySize,
    /// A digit position of the size field holds something else than `0`..`7`.
    InvalidSizeDigit,
    /// The size field does not end in a NUL or a space.
    UnterminatedSize,
    /// The size field is well formed but its value does not fit a `usize`.
    SizeTooLarge,
    /// A single all-zero block is followed by a block that is not all zero.
    LoneZeroBlock,
    /// A byte offset inside the archive does not fit a `usize`.
    OffsetOverflow,
    /// The archive stops before its end-of-archive marker is complete.
    Truncated,
}

/// A malformed line of the index.
#[derive(PartialEq, Eq, Structural, Clone, Copy, Debug)]
pub enum DecodeError {
    /// The line has fewer than five fields.
    MissingField,
    /// An offset field does not start with `0x`.
    MissingHexPrefix,
    /// An offset field holds this character where a hex digit must stand.
    InvalidHexDigit(char),
    /// An offset field is well formed but its value does not fit a `usize`.
    ValueTooLarge,
    /// The type field is neither `F` nor `D`.
    InvalidEntryType,
}

/// A failed lookup or extraction.
#[derive(PartialEq, Eq, Structural, Clone, Copy, Debug)]
pub enum ExtractError {
    /// No line of the index ends with the wanted name.
    NotFound,
    /// The line that was found cannot be decoded.
    Decode(DecodeError),
    /// The entry that was found is not a regular file.
    NotAFile,
    /// The entry that was found ends before it begins.
    InvalidRange,
    /// The archive holds fewer bytes than the entry announces.
    ReadFailed,
}

/// `String::push` of the standard library: appends the character `c` to
/// the end of `text`.
#[verifier::external_body]
fn push_char(text: &mut String, c: char)
    ensures
        final(text)@ == old(text)@.push(c),
{
    text.push(c);
}

/// `lead`, the character `c`, and `tail`, as one text.
fn around(lead: &str, c: char, tail: &str) -> (text: String)
    ensures
        text@ == lead@.push(c) + tail@,
{
    let mut text = String::from_str(lead);
    push_char(&mut text, c);
    text.append(tail);
    text
}

/// `lead`, `name`, and `tail`, as one text.
fn naming(lead: &str, name: &str, tail: &str) -> (text: String)
    ensures
        text@ == lead@ + name@ + tail@,
{
    let mut text = String::from_str(lead);
    text.append(name);
    text.append(tail);
    text
}

impl FormatError {
    /// What `describe` says of the error.
    pub open spec fn description(self) -> Seq<char> {
        match self {
            FormatError::UnsupportedFormat => "Only the GNU tar format is supported"@,
            FormatError::UnsupportedBlockType(c) => "Encountered unsupported TAR block of type '"@.push(
                c,
            ) + "'"@,
            FormatError::BinarySize => "The binary size format is not supported yet"@,
            FormatError::InvalidSizeDigit => "Found invalid byte in size field"@,
            FormatError::UnterminatedSize => "Size field is not properly terminated"@,
            FormatError::SizeTooLarge => "Size field holds a value that is too large"@,
            FormatError::LoneZeroBlock => "Found lone zero block"@,
            FormatError::OffsetOverflow => "Archive is too large to be indexed"@,
            FormatError::Truncated => "Archive ends before it is complete"@,
        }
    }

    /// The error in words, with the offending type flag where there is one.
    pub fn describe(&self) -> (text: String)
        ensures
            text@ == self.description(),
    {
        match self {
            FormatError::UnsupportedFormat => String::from_str(
                "Only the GNU tar format is supported",
            ),
            FormatError::UnsupportedBlockType(c) => around(
                "Encountered unsupported TAR block of type '",
                *c,
                "'",
            ),
            FormatError::BinarySize => String::from_str(
                "The binary size format is not supported yet",
            ),
            FormatError::InvalidSizeDigit => String::from_str("Found invalid byte in size field"),
            FormatError::UnterminatedSize => String::from_str(
                "Size field is not properly terminated",
            ),
            FormatError::SizeTooLarge => String::from_str(
                "Size field holds a value that is too large",
            ),
            FormatError::LoneZeroBlock => String::from_str("Found lone zero block"),
            FormatError::OffsetOverflow => String::from_str("Archive is too large to be indexed"),
            FormatError::Truncated => String::from_str("Archive ends before it is complete"),
        }
    }
}

impl DecodeError {
    /// What `describe` says of the error.
    pub open spec fn description(self) -> Seq<char> {
        match self {
            DecodeError::MissingField => "Index line has fewer than five fields"@,
            DecodeError::MissingHexPrefix => "Offset in index line does not start with 0x"@,
            DecodeError::InvalidHexDigit(c) => "'"@.push(c) + "' is an invalid hex digit"@,
            DecodeError::ValueTooLarge => "Offset in index line is too large"@,
            DecodeError::InvalidEntryType => "Index line holds an invalid entry type"@,
        }
    }

    /// The error in words, with the offending character where there is one.
    pub fn describe(&self) -> (text: String)
        ensures
            text@ == self.description(),
    {
        match self {
            DecodeError::MissingField => String::from_str("Index line has fewer than five fields"),
            DecodeError::MissingHexPrefix => String::from_str(
                "Offset in index line does not start with 0x",
            ),
            DecodeError::InvalidHexDigit(c) => around("'", *c, "' is an invalid hex digit"),
            DecodeError::ValueTooLarge => String::from_str("Offset in index line is too large"),
            DecodeError::InvalidEntryType => String::from_str(
                "Index line holds an invalid entry type",
            ),
        }
    }
}

impl ExtractError {
    /// What `describe` says of the error when `name` was looked for.
    pub open spec fn description(self, name: Seq<char>) -> Seq<char> {
        match self {
            ExtractError::NotFound => "No entry for '"@ + name + "' in index file"@,
            ExtractError::Decode(e) => e.description(),
            ExtractError::NotAFile => "Entry '"@ + name
                + "' is not a file and thus cannot be extracted"@,
            ExtractError::InvalidRange => "Entry '"@ + name + "' ends before it begins"@,
            ExtractError::ReadFailed => "Failed to read from tar file"@,
        }
    }

    /// The error in words, naming the entry that was looked for.
    pub fn describe(&self, entry_name: &str) -> (text: String)
        ensures
            text@ == self.description(entry_name@),
    {
        match self {
            ExtractError::NotFound => naming("No entry for '", entry_name, "' in index file"),
            ExtractError::Decode(e) => e.describe(),
            ExtractError::NotAFile => naming(
                "Entry '",
                entry_name,
                "' is not a file and thus cannot be extracted",
            ),
            ExtractError::InvalidRange => naming("Entry '", entry_name, "' ends before it begins"),
            ExtractError::ReadFailed => String::from_str("Failed to read from tar file"),
        }
    }
}

} // verus!
