//! Reading the smallest pieces of a rescue map: runs of characters of one
//! class, line breaks and numbers.

use crate::ascii::{
    CR, DIGIT_0, DIGIT_9, LF, LOWER_A, LOWER_F, LOWER_X, SPACE, TAB, UPPER_A, UPPER_F,
};
use vstd::prelude::*;
use vstd::slice::slice_subrange;

verus! {

/// The classes of characters that the map's grammar tells apart.
#[derive(Debug, PartialEq, Eq, Clone, Copy, Structural)]
pub enum ByteClass {
    /// A space or a tab.
    Blank,
    /// `0` to `9`.
    DecDigit,
    /// `0` to `9`, `a` to `f` and `A` to `F`.
    HexDigit,
    /// Anything but a line feed and a carriage return.
    LineText,
}

impl ByteClass {
    /// Whether the class holds the byte.
    pub open spec fn has(self, byte: u8) -> bool {
        match self {
            ByteClass::Blank => byte == SPACE || byte == TAB,
            ByteClass::DecDigit => DIGIT_0 <= byte <= DIGIT_9,
            ByteClass::HexDigit => DIGIT_0 <= byte <= DIGIT_9 || LOWER_A <= byte <= LOWER_F
                || UPPER_A <= byte <= UPPER_F,
            ByteClass::LineText => byte != LF && byte != CR,
        }
    }

    /// Tests a byte against the class.
    pub fn holds(self, byte: u8) -> (held: bool)
        ensures
            held == self.has(byte),
    {
        match self {
            ByteClass::Blank => byte == SPACE || byte == TAB,
            ByteClass::DecDigit => DIGIT_0 <= byte && byte <= DIGIT_9,
            ByteClass::HexDigit => (DIGIT_0 <= byte && byte <= DIGIT_9) || (LOWER_A <= byte && byte
                <= LOWER_F) || (UPPER_A <= byte && byte <= UPPER_F),
            ByteClass::LineText => byte != LF && byte != CR,
        }
    }
}

/// The two ways in which the map writes numbers.
#[derive(Debug, PartialEq, Eq, Clone, Copy, Structural)]
pub enum Radix {
    Decimal,
    Hexadecimal,
}

impl Radix {
    /// The base of the notation.
    pub open spec fn base(self) -> nat {
        match self {
            Radix::Decimal => 10,
            Radix::Hexadecimal => 16,
        }
    }

    /// The characters that are digits in the notation.
    pub open spec fn digits(self) -> ByteClass {
        match self {
            Radix::Decimal => ByteClass::DecDigit,
            Radix::Hexadecimal => ByteClass::HexDigit,
        }
    }
}

/// Why a piece of text gives no number.
#[derive(Debug, PartialEq, Eq, Clone, Copy, Structural)]
pub enum NumberError {
    /// The text is empty, or not all of it is digits.
    NotANumber,
    /// The digits stand for more than 64 bits can hold.
    Overflow,
}

/// The place where the run of `class` that begins at `pos` ends: the first
/// place from `pos` on that holds no byte of the class.
pub open spec fn run_end(s: Seq<u8>, pos: int, class: ByteClass) -> int
    decreases s.len() - pos,
{
    if 0 <= pos < s.len() && class.has(s[pos]) {
        run_end(s, pos + 1, class)
    } else {
        pos
    }
}

/// The length of the line break at `pos`: a line feed, or a carriage return
/// and a line feed. 0 where there is none.
pub open spec fn line_break_len(s: Seq<u8>, pos: int) -> int {
    if 0 <= pos < s.len() && s[pos] == LF {
        1
    } else if 0 <= pos && pos + 1 < s.len() && s[pos] == CR && s[pos + 1] == LF {
        2
    } else {
        0
    }
}

/// What a hexadecimal digit counts for; a decimal digit counts for the same.
pub open spec fn digit_value(byte: u8) -> nat {
    if DIGIT_0 <= byte <= DIGIT_9 {
        (byte - DIGIT_0) as nat
    } else if LOWER_A <= byte <= LOWER_F {
        (byte - LOWER_A + 10) as nat
    } else if UPPER_A <= byte <= UPPER_F {
        (byte - UPPER_A + 10) as nat
    } else {
        0
    }
}

/// The number that the digits stand for in the given base, the first digit
/// counting most.
pub open spec fn number_value(digits: Seq<u8>, base: nat) -> nat
    decreases digits.len(),
{
    if digits.len() == 0 {
        0
    } else {
        number_value(digits.drop_last(), base) * base + digit_value(digits.last())
    }
}

/// The text is one digit or more of the notation, and nothing else.
pub open spec fn is_number(text: Seq<u8>, radix: Radix) -> bool {
    text.len() > 0 && forall|i: int| 0 <= i < text.len() ==> radix.digits().has(#[trigger] text[i])
}

/// The 64-bit number that the text stands for.
pub open spec fn number_of(text: Seq<u8>, radix: Radix) -> Result<u64, NumberError> {
    if !is_number(text, radix) {
        Err(NumberError::NotANumber)
    } else if number_value(text, radix.base()) > u64::MAX {
        Err(NumberError::Overflow)
    } else {
        Ok(number_value(text, radix.base()) as u64)
    }
}

/// The text has `0x` at `pos`.
pub open spec fn has_hex_prefix(s: Seq<u8>, pos: int) -> bool {
    0 <= pos && pos + 2 <= s.len() && s[pos] == DIGIT_0 && s[pos + 1] == LOWER_X
}

/// The number written at `pos` as `0x` and hexadecimal digits, and the place
/// after its last digit.
pub open spec fn hex_u64_at(s: Seq<u8>, pos: int) -> Result<(u64, int), NumberError> {
    if !has_hex_prefix(s, pos) {
        Err(NumberError::NotANumber)
    } else {
        let end = run_end(s, pos + 2, ByteClass::HexDigit);
        match number_of(s.subrange(pos + 2, end), Radix::Hexadecimal) {
            Ok(value) => Ok((value, end)),
            Err(fault) => Err(fault),
        }
    }
}

/// The number written at `pos` in decimal digits, and the place after its
/// last digit.
pub open spec fn dec_u64_at(s: Seq<u8>, pos: int) -> Result<(u64, int), NumberError> {
    if !(0 <= pos <= s.len()) {
        Err(NumberError::NotANumber)
    } else {
        let end = run_end(s, pos, ByteClass::DecDigit);
        match number_of(s.subrange(pos, end), Radix::Decimal) {
            Ok(value) => Ok((value, end)),
            Err(fault) => Err(fault),
        }
    }
}

/// What a parser returns is what the grammar gives, place for place.
pub open spec fn same_outcome<T, E>(got: Result<(T, usize), E>, due: Result<(T, int), E>) -> bool {
    match got {
        Ok((value, end)) => due == Ok::<(T, int), E>((value, end as int)),
        Err(fault) => due == Err::<(T, int), E>(fault),
    }
}

/// A run starts where it is asked for, ends within the text, holds only
/// bytes of its class, and is followed by none.
pub proof fn lemma_run_end(s: Seq<u8>, pos: int, class: ByteClass)
    requires
        0 <= pos <= s.len(),
    ensures
        pos <= run_end(s, pos, class) <= s.len(),
        forall|i: int| pos <= i < run_end(s, pos, class) ==> class.has(#[trigger] s[i]),
        run_end(s, pos, class) < s.len() ==> !class.has(s[run_end(s, pos, class)]),
    decreases s.len() - pos,
{
    if pos < s.len() && class.has(s[pos]) {
        lemma_run_end(s, pos + 1, class);
    }
}

/// A place from which on, up to `end`, all bytes are of the class, and at
/// which `end` holds none, has its run end at `end`.
pub proof fn lemma_run_end_is(s: Seq<u8>, pos: int, end: int, class: ByteClass)
    requires
        0 <= pos <= end <= s.len(),
        forall|i: int| pos <= i < end ==> class.has(#[trigger] s[i]),
        end < s.len() ==> !class.has(s[end]),
    ensures
        run_end(s, pos, class) == end,
    decreases end - pos,
{
    if pos < end {
        lemma_run_end_is(s, pos + 1, end, class);
    }
}

/// One more digit multiplies by the base and adds the digit.
pub proof fn lemma_number_value_step(digits: Seq<u8>, n: int, base: nat)
    requires
        0 <= n < digits.len(),
    ensures
        number_value(digits.take(n + 1), base) == number_value(digits.take(n), base) * base
            + digit_value(digits[n]),
{
    assert(digits.take(n + 1).drop_last() =~= digits.take(n));
}

/// The end of the run of `class` that begins at `pos`.
pub fn skip_run(input: &[u8], pos: usize, class: ByteClass) -> (end: usize)
    ensures
        end == run_end(input@, pos as int, class),
        pos <= end,
        pos <= input@.len() ==> end <= input@.len(),
{
    let mut end = pos;
    while end < input.len() && class.holds(input[end])
        invariant
            pos <= end,
            pos <= input@.len() ==> end <= input@.len(),
            run_end(input@, pos as int, class) == run_end(input@, end as int, class),
        decreases input@.len() - end,
    {
        end = end + 1;
    }
    end
}

/// The length of the line break at `pos`, 0 where there is none.
pub fn line_ending(input: &[u8], pos: usize) -> (len: usize)
    ensures
        len == line_break_len(input@, pos as int),
        len <= 2,
        len > 0 ==> pos + len <= input@.len() <= usize::MAX,
{
    if pos < input.len() && input[pos] == LF {
        1
    } else if pos < input.len() && input.len() - pos >= 2 && input[pos] == CR && input[pos + 1]
        == LF {
        2
    } else {
        0
    }
}

/// What a digit counts for.
fn digit_of(byte: u8) -> (value: u64)
    requires
        ByteClass::HexDigit.has(byte),
    ensures
        value == digit_value(byte),
        value < 16,
        ByteClass::DecDigit.has(byte) ==> value < 10,
{
    if DIGIT_0 <= byte && byte <= DIGIT_9 {
        (byte - DIGIT_0) as u64
    } else if LOWER_A <= byte && byte <= LOWER_F {
        (byte - LOWER_A + 10) as u64
    } else {
        (byte - UPPER_A + 10) as u64
    }
}

/// Reads a whole piece of text as a number in the given notation.
pub fn from_radix(text: &[u8], radix: Radix) -> (number: Result<u64, NumberError>)
    ensures
        number == number_of(text@, radix),
{
    let (base, class): (u64, ByteClass) = match radix {
        Radix::Decimal => (10, ByteClass::DecDigit),
        Radix::Hexadecimal => (16, ByteClass::HexDigit),
    };
    if text.len() == 0 {
        return Err(NumberError::NotANumber);
    }
    let mut value: u64 = 0;
    let mut overflow = false;
    let mut i: usize = 0;
    proof {
        assert(text@.take(0) =~= Seq::empty());
    }
    while i < text.len()
        invariant
            0 <= i <= text@.len(),
            base == radix.base(),
            class == radix.digits(),
            forall|j: int| 0 <= j < i ==> class.has(#[trigger] text@[j]),
            !overflow ==> value == number_value(text@.take(i as int), radix.base()),
            overflow ==> number_value(text@.take(i as int), radix.base()) > u64::MAX,
        decreases text@.len() - i,
    {
        let byte = text[i];
        if !class.holds(byte) {
            return Err(NumberError::NotANumber);
        }
        let digit = digit_of(byte);
        proof {
            lemma_number_value_step(text@, i as int, radix.base());
            let before = number_value(text@.take(i as int), radix.base());
            assert(before * radix.base() >= before) by (nonlinear_arith)
                requires
                    radix.base() >= 1,
            ;
        }
        if !overflow {
            match value.checked_mul(base) {
                Some(shifted) => match shifted.checked_add(digit) {
                    Some(sum) => {
                        value = sum;
                    },
                    None => {
                        overflow = true;
                    },
                },
                None => {
                    overflow = true;
                },
            }
        }
        i = i + 1;
    }
    proof {
        assert(text@.take(i as int) =~= text@);
    }
    if overflow {
        Err(NumberError::Overflow)
    } else {
        Ok(value)
    }
}

/// Reads a whole piece of text as a hexadecimal number.
pub fn from_hex(text: &[u8]) -> (number: Result<u64, NumberError>)
    ensures
        number == number_of(text@, Radix::Hexadecimal),
{
    from_radix(text, Radix::Hexadecimal)
}

/// Reads a whole piece of text as a decimal number.
pub fn from_dec(text: &[u8]) -> (number: Result<u64, NumberError>)
    ensures
        number == number_of(text@, Radix::Decimal),
{
    from_radix(text, Radix::Decimal)
}

/// Reads the number written at `pos` in decimal digits.
pub fn dec_u64(input: &[u8], pos: usize) -> (number: Result<(u64, usize), NumberError>)
    ensures
        same_outcome(number, dec_u64_at(input@, pos as int)),
{
    if pos > input.len() {
        return Err(NumberError::NotANumber);
    }
    let end = skip_run(input, pos, ByteClass::DecDigit);
    match from_dec(slice_subrange(input, pos, end)) {
        Ok(value) => Ok((value, end)),
        Err(fault) => Err(fault),
    }
}

/// Reads the number written at `pos` as `0x` and hexadecimal digits.
pub fn hex_u64(input: &[u8], pos: usize) -> (number: Result<(u64, usize), NumberError>)
    ensures
        same_outcome(number, hex_u64_at(input@, pos as int)),
{
    if pos > input.len() || input.len() - pos < 2 {
        return Err(NumberError::NotANumber);
    }
    if input[pos] != DIGIT_0 || input[pos + 1] != LOWER_X {
        return Err(NumberError::NotANumber);
    }
    let end = skip_run(input, pos + 2, ByteClass::HexDigit);
    match from_hex(slice_subrange(input, pos + 2, end)) {
        Ok(value) => Ok((value, end)),
        Err(fault) => Err(fault),
    }
}

} // verus!
