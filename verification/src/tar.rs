//! Decoding of the fields of one 512-byte tar header block.

use vstd::prelude::*;
use vstd::slice::slice_subrange;
use crate::error::FormatError;

verus! {

/// Size in bytes of one block of a tar archive.
pub const BLOCK_SIZE: usize = 512;

/// Archive flavour announced by a header block.
#[derive(PartialEq, Eq, Structural, Clone, Copy, Debug)]
pub enum Format {
    Gnu,
    Unsupported,
}

/// Kind of archive member announced by a header block.
#[derive(PartialEq, Eq, Structural, Clone, Copy, Debug)]
pub enum TypeFlag {
    RegularFile,
    Directory,
    GnuLongPathName,
    Unsupported(char),
}

/// The magic of a GNU header block: the bytes of `ustar` and one space.
pub open spec fn gnu_magic() -> Seq<u8> {
    seq![0x75u8, 0x73u8, 0x74u8, 0x61u8, 0x72u8, 0x20u8]
}

/// The format that a header block announces in its bytes 257 to 262.
pub open spec fn format_of(block: Seq<u8>) -> Format {
    if block.subrange(257, 263) == gnu_magic() {
        Format::Gnu
    } else {
        Format::Unsupported
    }
}

/// Tells whether a header block carries the GNU magic.
pub fn parse_format(block: &[u8]) -> (format: Format)
    requires
        block@.len() >= BLOCK_SIZE,
    ensures
        format == format_of(block@),
{
    let gnu = block[257] == 0x75 && block[258] == 0x73 && block[259] == 0x74 && block[260] == 0x61
        && block[261] == 0x72 && block[262] == 0x20;
    proof {
        let field = block@.subrange(257, 263);
        if gnu {
            assert(field =~= gnu_magic());
        } else {
            assert(field[0] == block@[257] && field[1] == block@[258] && field[2] == block@[259]
                && field[3] == block@[260] && field[4] == block@[261] && field[5] == block@[262]);
        }
    }
    if gnu {
        Format::Gnu
    } else {
        Format::Unsupported
    }
}

/// Whether the first 512 bytes of `block` are all zero.
pub open spec fn is_zero(block: Seq<u8>) -> bool {
    forall|i: int| 0 <= i < 512 ==> block[i] == 0
}

/// Tells whether a block holds nothing but zero bytes, as the blocks of the
/// end-of-archive marker do.
pub fn is_zero_block(block: &[u8]) -> (zero: bool)
    requires
        block@.len() >= BLOCK_SIZE,
    ensures
        zero == is_zero(block@),
{
    let mut i: usize = 0;
    while i < BLOCK_SIZE
        invariant
            i <= 512 <= block@.len(),
            forall|j: int| 0 <= j < i ==> block@[j] == 0,
        decreases 512 - i,
    {
        if block[i] != 0 {
            return false;
        }
        i += 1;
    }
    true
}

/// Number of blocks that `bytes` bytes of content occupy.
pub open spec fn blocks_for(bytes: nat) -> nat {
    if bytes == 0 {
        0
    } else {
        1 + (bytes - 1) as nat / 512
    }
}

/// Number of whole blocks needed to hold `bytes` bytes.
pub fn bytes_to_blocks(bytes: usize) -> (blocks: usize)
    ensures
        blocks == blocks_for(bytes as nat),
{
    if bytes > 0 {
        1 + (bytes - 1) / BLOCK_SIZE
    } else {
        0
    }
}

/// Content of no length takes no block, up to 512 bytes take one, and one
/// byte more takes a second. In general the blocks are the fewest that hold
/// the content.
pub proof fn lemma_block_rounding(bytes: nat)
    ensures
        blocks_for(0) == 0,
        1 <= bytes <= 512 ==> blocks_for(bytes) == 1,
        blocks_for(513) == 2,
        bytes <= blocks_for(bytes) * 512 < bytes + 512,
{
}

/// The type flag that the byte `flag` stands for.
pub open spec fn type_flag_of(flag: u8) -> TypeFlag {
    if flag == 0x30 || flag == 0 || flag == 0x37 {
        TypeFlag::RegularFile
    } else if flag == 0x35 {
        TypeFlag::Directory
    } else if flag == 0x4c {
        TypeFlag::GnuLongPathName
    } else {
        TypeFlag::Unsupported(flag as char)
    }
}

/// Reads the type flag of a header block, its byte 156.
pub fn parse_type_flag(block: &[u8]) -> (flag: TypeFlag)
    requires
        block@.len() >= BLOCK_SIZE,
    ensures
        flag == type_flag_of(block@[156]),
{
    let c: u8 = block[156];
    if c == 0x30 || c == 0 || c == 0x37 {
        TypeFlag::RegularFile
    } else if c == 0x35 {
        TypeFlag::Directory
    } else if c == 0x4c {
        TypeFlag::GnuLongPathName
    } else {
        TypeFlag::Unsupported(c as char)
    }
}

/// The short name field of a header block: its first 100 bytes, padding
/// included.
pub fn parse_name(block: &[u8]) -> (name: &[u8])
    requires
        block@.len() >= BLOCK_SIZE,
    ensures
        name@ == block@.subrange(0, 100),
{
    slice_subrange(block, 0, 100)
}

/// Whether `b` is one of the ASCII digits `0` to `7`.
pub open spec fn is_octal_digit(b: u8) -> bool {
    0x30 <= b <= 0x37
}

/// The number that a run of octal digits writes, most significant first.
pub open spec fn octal_value(digits: Seq<u8>) -> nat
    decreases digits.len(),
{
    if digits.len() == 0 {
        0
    } else {
        octal_value(digits.drop_last()) * 8 + (digits.last() - 0x30) as nat
    }
}

/// What an octal field stands for: digits in every position but the last,
/// then a NUL or a space. A field that breaks the digit rule is reported as
/// such whatever its last byte is, and a well-formed field fails only if its
/// value is too large for a `usize`.
pub open spec fn octal_field(octals: Seq<u8>) -> Result<usize, FormatError> {
    let digits = octals.drop_last();
    if !(forall|i: int| 0 <= i < digits.len() ==> is_octal_digit(#[trigger] digits[i])) {
        Err(FormatError::InvalidSizeDigit)
    } else if octals.last() != 0 && octals.last() != 0x20 {
        Err(FormatError::UnterminatedSize)
    } else if octal_value(digits) > usize::MAX {
        Err(FormatError::SizeTooLarge)
    } else {
        Ok(octal_value(digits) as usize)
    }
}

/// The size that a header block announces in its bytes 124 to 135.
pub open spec fn size_of(block: Seq<u8>) -> Result<usize, FormatError> {
    let field = block.subrange(124, 136);
    if field[0] & 0x80 != 0 {
        Err(FormatError::BinarySize)
    } else {
        octal_field(field)
    }
}

/// Appending a digit to a run of octal digits does not lower its value.
proof fn lemma_octal_value_push(digits: Seq<u8>, digit: u8)
    requires
        is_octal_digit(digit),
    ensures
        octal_value(digits.push(digit)) == octal_value(digits) * 8 + (digit - 0x30),
        octal_value(digits.push(digit)) >= octal_value(digits),
{
    assert(digits.push(digit).drop_last() =~= digits);
}

/// Decodes an octal field: digits, closed by one NUL or space.
pub fn parse_size_octal(octals: &[u8]) -> (size: Result<usize, FormatError>)
    requires
        octals@.len() >= 1,
    ensures
        size == octal_field(octals@),
{
    let len = octals.len();
    let ghost digits = octals@.drop_last();
    let mut value: usize = 0;
    let mut fits = true;
    let mut i: usize = 0;
    while i < len - 1
        invariant
            len == octals@.len(),
            len >= 1,
            i <= len - 1,
            digits == octals@.drop_last(),
            forall|j: int| 0 <= j < i ==> is_octal_digit(#[trigger] digits[j]),
            fits ==> value == octal_value(digits.take(i as int)),
            !fits ==> octal_value(digits.take(i as int)) > usize::MAX,
        decreases len - 1 - i,
    {
        let b: u8 = octals[i];
        if b < 0x30 || b > 0x37 {
            assert(!is_octal_digit(digits[i as int]));
            return Err(FormatError::InvalidSizeDigit);
        }
        let digit: usize = (b - 0x30) as usize;
        proof {
            lemma_octal_value_push(digits.take(i as int), b);
            assert(digits.take(i as int).push(b) =~= digits.take(i + 1));
        }
        if fits {
            if value > (usize::MAX - digit) / 8 {
                fits = false;
            } else {
                value = value * 8 + digit;
            }
        }
        i += 1;
    }
    assert(digits.take(i as int) =~= digits);
    let last: u8 = octals[len - 1];
    if last != 0 && last != 0x20 {
        return Err(FormatError::UnterminatedSize);
    }
    if !fits {
        return Err(FormatError::SizeTooLarge);
    }
    Ok(value)
}

/// Reads the size field of a header block. The binary encoding, which sets
/// the high bit of the first byte, is refused.
pub fn parse_size(block: &[u8]) -> (size: Result<usize, FormatError>)
    requires
        block@.len() >= BLOCK_SIZE,
    ensures
        size == size_of(block@),
{
    let field = slice_subrange(block, 124, 136);
    if field[0] & 0x80 != 0 {
        Err(FormatError::BinarySize)
    } else {
        parse_size_octal(field)
    }
}

} // verus!
