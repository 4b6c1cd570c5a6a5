//! Hexadecimal offsets as the index writes them: `0x` and sixteen digits.

use vstd::prelude::*;
use vstd::slice::slice_subrange;
use crate::error::DecodeError;

verus! {

/// Number of hex digits of one offset in the index.
pub const HEX_WIDTH: usize = 16;

/// Whether `b` is an ASCII hex digit, in either case.
pub open spec fn is_hex_digit(b: u8) -> bool {
    (0x30 <= b <= 0x39) || (0x41 <= b <= 0x46) || (0x61 <= b <= 0x66)
}

/// The number below 16 that the hex digit `b` stands for.
pub open spec fn hex_digit_value(b: u8) -> nat {
    if b <= 0x39 {
        (b - 0x30) as nat
    } else if b <= 0x46 {
        (b - 0x41 + 10) as nat
    } else {
        (b - 0x61 + 10) as nat
    }
}

/// The lowercase hex digit for a number below 16.
pub open spec fn hex_digit(d: nat) -> u8 {
    if d < 10 {
        (0x30 + d) as u8
    } else {
        (0x61 + d - 10) as u8
    }
}

/// The number that a run of hex digits writes, most significant first.
pub open spec fn hex_value(digits: Seq<u8>) -> nat
    decreases digits.len(),
{
    if digits.len() == 0 {
        0
    } else {
        hex_value(digits.drop_last()) * 16 + hex_digit_value(digits.last())
    }
}

/// Position of the first byte of `s` that is no hex digit, or the length
/// of `s` if there is none.
pub open spec fn first_non_hex(s: Seq<u8>) -> int
    decreases s.len(),
{
    if s.len() == 0 || !is_hex_digit(s[0]) {
        0
    } else {
        1 + first_non_hex(s.drop_first())
    }
}

/// The two bytes `0x` that open an offset.
pub open spec fn hex_prefix() -> Seq<u8> {
    seq![0x30u8, 0x78u8]
}

/// What an offset field of the index stands for. The field opens with `0x`;
/// what follows are hex digits, none at all standing for zero. The first byte
/// that is no digit is reported; a field of digits alone fails only if its
/// value is too large for a `usize`.
pub open spec fn hex_field(data: Seq<u8>) -> Result<usize, DecodeError> {
    if data.len() < 2 || data.take(2) != hex_prefix() {
        Err(DecodeError::MissingHexPrefix)
    } else {
        let digits = data.skip(2);
        let bad = first_non_hex(digits);
        if bad < digits.len() {
            Err(DecodeError::InvalidHexDigit(digits[bad] as char))
        } else if hex_value(digits) > usize::MAX {
            Err(DecodeError::ValueTooLarge)
        } else {
            Ok(hex_value(digits) as usize)
        }
    }
}

/// The last `width` hex digits of `value`, most significant first and in
/// lower case, with leading zeros.
pub open spec fn hex_digits(value: nat, width: nat) -> Seq<u8>
    decreases width,
{
    if width == 0 {
        Seq::empty()
    } else {
        hex_digits(value / 16, (width - 1) as nat).push(hex_digit(value % 16))
    }
}

/// An offset as the index writes it: `0x` and sixteen hex digits.
pub open spec fn hex_text(value: nat) -> Seq<u8> {
    hex_prefix() + hex_digits(value, 16)
}

/// 16 to the power of `n`.
pub open spec fn pow16(n: nat) -> nat
    decreases n,
{
    if n == 0 {
        1
    } else {
        16 * pow16((n - 1) as nat)
    }
}

/// Where the first `i` bytes of `s` are hex digits, the first byte that is
/// none is not found before `i`, and it is found at `i` if that byte is none
/// or `s` ends there.
pub proof fn lemma_first_non_hex(s: Seq<u8>, i: int)
    requires
        0 <= i <= s.len(),
        forall|j: int| 0 <= j < i ==> is_hex_digit(#[trigger] s[j]),
    ensures
        first_non_hex(s) >= i,
        first_non_hex(s) <= s.len(),
        i == s.len() || !is_hex_digit(s[i]) ==> first_non_hex(s) == i,
    decreases s.len(),
{
    if s.len() > 0 && is_hex_digit(s[0]) {
        let rest = s.drop_first();
        if i > 0 {
            assert forall|j: int| 0 <= j < i - 1 implies is_hex_digit(#[trigger] rest[j]) by {
                assert(rest[j] == s[j + 1]);
            }
            lemma_first_non_hex(rest, i - 1);
        } else {
            lemma_first_non_hex(rest, 0);
        }
    }
}

/// Appending a hex digit multiplies the value by 16 and adds the digit.
pub proof fn lemma_hex_value_push(digits: Seq<u8>, digit: u8)
    ensures
        hex_value(digits.push(digit)) == hex_value(digits) * 16 + hex_digit_value(digit),
{
    assert(digits.push(digit).drop_last() =~= digits);
}

/// Decodes one offset field of the index: `0x`, then hex digits.
pub fn from_hex(data: &[u8]) -> (value: Result<usize, DecodeError>)
    ensures
        value == hex_field(data@),
{
    let len = data.len();
    if len < 2 || data[0] != 0x30 || data[1] != 0x78 {
        proof {
            if len >= 2 {
                assert(data@.take(2)[0] == data@[0] && data@.take(2)[1] == data@[1]);
            }
        }
        return Err(DecodeError::MissingHexPrefix);
    }
    assert(data@.take(2) =~= hex_prefix());
    let digits = slice_subrange(data, 2, len);
    assert(digits@ =~= data@.skip(2));
    let count = len - 2;
    let mut hex: usize = 0;
    let mut fits = true;
    let mut i: usize = 0;
    while i < count
        invariant
            data@.len() >= 2,
            data@.take(2) == hex_prefix(),
            digits@ == data@.skip(2),
            count == digits@.len(),
            i <= count,
            forall|j: int| 0 <= j < i ==> is_hex_digit(#[trigger] digits@[j]),
            fits ==> hex == hex_value(digits@.take(i as int)),
            !fits ==> hex_value(digits@.take(i as int)) > usize::MAX,
        decreases count - i,
    {
        let c: u8 = digits[i];
        let v: u8 = if 0x30 <= c && c <= 0x39 {
            c - 0x30
        } else if 0x41 <= c && c <= 0x46 {
            c - 0x41 + 10
        } else if 0x61 <= c && c <= 0x66 {
            c - 0x61 + 10
        } else {
            proof {
                assert(!is_hex_digit(digits@[i as int]));
                lemma_first_non_hex(digits@, i as int);
            }
            return Err(DecodeError::InvalidHexDigit(c as char));
        };
        proof {
            lemma_hex_value_push(digits@.take(i as int), c);
            assert(digits@.take(i as int).push(c) =~= digits@.take(i + 1));
        }
        if fits {
            if hex > (usize::MAX - v as usize) / 16 {
                fits = false;
            } else {
                hex = 16 * hex + v as usize;
            }
        }
        i += 1;
    }
    proof {
        assert(digits@.take(i as int) =~= digits@);
        lemma_first_non_hex(digits@, i as int);
    }
    if !fits {
        return Err(DecodeError::ValueTooLarge);
    }
    Ok(hex)
}

/// Appends the last `width` hex digits of `value` to `out`.
fn push_hex_digits(out: &mut Vec<u8>, value: u64, width: u8)
    ensures
        final(out)@ == old(out)@ + hex_digits(value as nat, width as nat),
    decreases width,
{
    if width > 0 {
        push_hex_digits(out, value / 16, width - 1);
        let d: u8 = (value % 16) as u8;
        let c: u8 = if d < 10 {
            0x30 + d
        } else {
            0x61 + (d - 10)
        };
        out.push(c);
        assert(final(out)@ =~= old(out)@ + hex_digits(value as nat, width as nat));
    } else {
        assert(final(out)@ =~= old(out)@ + hex_digits(value as nat, width as nat));
    }
}

/// Appends `value` to `out` as `0x` and sixteen lowercase hex digits.
pub fn push_hex(out: &mut Vec<u8>, value: usize)
    ensures
        final(out)@ == old(out)@ + hex_text(value as nat),
{
    out.push(0x30);
    out.push(0x78);
    push_hex_digits(out, value as u64, 16);
    assert(final(out)@ =~= old(out)@ + hex_text(value as nat));
}

/// Every byte that `hex_digits` writes is a hex digit.
pub proof fn lemma_hex_digits_are_digits(value: nat, width: nat)
    ensures
        hex_digits(value, width).len() == width,
        forall|i: int| 0 <= i < width ==> is_hex_digit(#[trigger] hex_digits(value, width)[i]),
    decreases width,
{
    if width > 0 {
        lemma_hex_digits_are_digits(value / 16, (width - 1) as nat);
    }
}

/// Reading back `width` written digits gives the value, if it is below the
/// `width`-th power of 16.
pub proof fn lemma_hex_value_of_digits(value: nat, width: nat)
    requires
        value < pow16(width),
    ensures
        hex_value(hex_digits(value, width)) == value,
    decreases width,
{
    if width > 0 {
        let head = hex_digits(value / 16, (width - 1) as nat);
        lemma_hex_value_of_digits(value / 16, (width - 1) as nat);
        lemma_hex_value_push(head, hex_digit(value % 16));
    }
}

/// An offset that was written is read back as it was.
pub proof fn lemma_hex_round_trip(value: usize)
    ensures
        hex_field(hex_text(value as nat)) == Ok::<usize, DecodeError>(value),
{
    let text = hex_text(value as nat);
    let digits = hex_digits(value as nat, 16);
    lemma_hex_digits_are_digits(value as nat, 16);
    assert(text.take(2) =~= hex_prefix());
    assert(text.skip(2) =~= digits);
    lemma_first_non_hex(digits, 16);
    assert(pow16(16) == 0x1_0000_0000_0000_0000) by {
        reveal_with_fuel(pow16, 17);
    }
    lemma_hex_value_of_digits(value as nat, 16);
}

} // verus!
