//! Integers written in decimal digits.
use crate::parse::FromText;
use crate::text::byte_len;
use vstd::prelude::*;

verus! {

/// Why a text is no number of the type asked for.
#[derive(Clone, Copy, Debug, PartialEq, Eq, Structural)]
pub enum IntError {
    /// The text is empty.
    Empty,
    /// After the sign, if there is one, there is no digit, or something that is no decimal
    /// digit.
    InvalidDigit,
    /// The number is too large for the type.
    PosOverflow,
    /// The number is too small for the type.
    NegOverflow,
}

impl View for IntError {
    type V = IntError;

    open spec fn view(&self) -> IntError {
        *self
    }
}

/// Whether `c` is a decimal digit.
pub open spec fn is_digit(c: char) -> bool {
    '0' <= c <= '9'
}

/// The number that the decimal digit `c` denotes.
pub open spec fn digit_value(c: char) -> nat
    recommends
        is_digit(c),
{
    (c as u32 - '0' as u32) as nat
}

/// The number that a sequence of decimal digits denotes.
pub open spec fn decimal_value(digits: Seq<char>) -> nat
    decreases digits.len(),
{
    if digits.len() == 0 {
        0
    } else {
        10 * decimal_value(digits.drop_last()) + digit_value(digits.last())
    }
}

/// Whether `text` starts with a sign: a `+`, or a `-` where the type has negative numbers.
pub open spec fn has_sign(text: Seq<char>, signed: bool) -> bool {
    text.len() > 0 && (text[0] == '+' || (signed && text[0] == '-'))
}

/// Whether `text` starts with a `-` that counts as a sign.
pub open spec fn is_negative(text: Seq<char>, signed: bool) -> bool {
    signed && text.len() > 0 && text[0] == '-'
}

/// The text without its sign, if it has one.
pub open spec fn digits_of(text: Seq<char>, signed: bool) -> Seq<char> {
    if has_sign(text, signed) {
        text.drop_first()
    } else {
        text
    }
}

/// Whether `digits` is one or more decimal digits and nothing else.
pub open spec fn all_digits(digits: Seq<char>) -> bool {
    digits.len() > 0 && forall|i: int| 0 <= i < digits.len() ==> is_digit(#[trigger] digits[i])
}

/// What `text` means as a decimal number from `min` to `max`: an optional sign, then one or
/// more decimal digits and nothing else. Where `signed` is false, a `-` is no sign.
pub open spec fn parse_integer(text: Seq<char>, signed: bool, min: int, max: int) -> Result<
    int,
    IntError,
> {
    let digits = digits_of(text, signed);
    let value = if is_negative(text, signed) {
        -decimal_value(digits)
    } else {
        decimal_value(digits) as int
    };
    if text.len() == 0 {
        Err(IntError::Empty)
    } else if !all_digits(digits) {
        Err(IntError::InvalidDigit)
    } else if value > max {
        Err(IntError::PosOverflow)
    } else if value < min {
        Err(IntError::NegOverflow)
    } else {
        Ok(value)
    }
}

/// Reads a decimal number from `min` to `max`.
pub fn read_integer(text: &str, signed: bool, min: i128, max: i128) -> (r: Result<i128, IntError>)
    requires
        i64::MIN <= min <= 0 <= max <= u64::MAX,
    ensures
        match r {
            Ok(v) => parse_integer(text@, signed, min as int, max as int) == Ok::<int, IntError>(
                v as int,
            ),
            Err(e) => parse_integer(text@, signed, min as int, max as int) == Err::<
                int,
                IntError,
            >(e),
        },
{
    if text.is_empty() {
        return Err(IntError::Empty);
    }
    let ghost digits = digits_of(text@, signed);
    if !text.is_ascii() {
        proof {
            let i = choose|i: int|
                0 <= i < text@.len() && !('\0' <= #[trigger] text@[i] <= '\u{7f}');
            if has_sign(text@, signed) {
                assert(!is_digit(digits[i - 1]));
            }
        }
        return Err(IntError::InvalidDigit);
    }
    let len = byte_len(text);
    let first = text.get_ascii(0);
    let negative = signed && first == 0x2d;
    let start: usize = if first == 0x2b || negative { 1 } else { 0 };
    if start == len {
        return Err(IntError::InvalidDigit);
    }
    let limit: u128 = if negative { (0 - min) as u128 } else { max as u128 };
    let mut value: u128 = 0;
    let mut overflow = false;
    let mut i: usize = start;
    while i < len
        invariant
            start <= i <= len,
            start < len,
            len == text@.len(),
            text.is_ascii(),
            digits == digits_of(text@, signed),
            digits == text@.skip(start as int),
            limit <= u64::MAX,
            forall|k: int| 0 <= k < i - start ==> is_digit(#[trigger] digits[k]),
            !overflow ==> value == decimal_value(digits.take(i - start)) && value <= limit,
            overflow ==> decimal_value(digits.take(i - start)) > limit,
        decreases len - i,
    {
        let b = text.get_ascii(i);
        let ghost c = text@[i as int];
        assert(c == digits[i - start]);
        if b < 0x30 || b > 0x39 {
            return Err(IntError::InvalidDigit);
        }
        let d: u128 = (b - 0x30) as u128;
        proof {
            assert(digits.take(i + 1 - start).drop_last() =~= digits.take(i - start));
        }
        if !overflow {
            let next: u128 = value * 10 + d;
            if next > limit {
                overflow = true;
            } else {
                value = next;
            }
        }
        i += 1;
    }
    proof {
        assert(digits.take(len - start) =~= digits);
    }
    if overflow {
        if negative {
            Err(IntError::NegOverflow)
        } else {
            Err(IntError::PosOverflow)
        }
    } else if negative {
        Ok(0 - value as i128)
    } else {
        Ok(value as i128)
    }
}

impl FromText for u8 {
    type Err = IntError;

    open spec fn parse_spec(text: Seq<char>) -> Result<u8, IntError> {
        match parse_integer(text, false, 0, u8::MAX as int) {
            Ok(v) => Ok(v as u8),
            Err(e) => Err(e),
        }
    }

    fn from_text(text: &str) -> (r: Result<u8, IntError>) {
        match read_integer(text, false, 0, u8::MAX as i128) {
            Ok(v) => Ok(v as u8),
            Err(e) => Err(e),
        }
    }
}

impl FromText for u16 {
    type Err = IntError;

    open spec fn parse_spec(text: Seq<char>) -> Result<u16, IntError> {
        match parse_integer(text, false, 0, u16::MAX as int) {
            Ok(v) => Ok(v as u16),
            Err(e) => Err(e),
        }
    }

    fn from_text(text: &str) -> (r: Result<u16, IntError>) {
        match read_integer(text, false, 0, u16::MAX as i128) {
            Ok(v) => Ok(v as u16),
            Err(e) => Err(e),
        }
    }
}

impl FromText for u32 {
    type Err = IntError;

    open spec fn parse_spec(text: Seq<char>) -> Result<u32, IntError> {
        match parse_integer(text, false, 0, u32::MAX as int) {
            Ok(v) => Ok(v as u32),
            Err(e) => Err(e),
        }
    }

    fn from_text(text: &str) -> (r: Result<u32, IntError>) {
        match read_integer(text, false, 0, u32::MAX as i128) {
            Ok(v) => Ok(v as u32),
            Err(e) => Err(e),
        }
    }
}

impl FromText for u64 {
    type Err = IntError;

    open spec fn parse_spec(text: Seq<char>) -> Result<u64, IntError> {
        match parse_integer(text, false, 0, u64::MAX as int) {
            Ok(v) => Ok(v as u64),
            Err(e) => Err(e),
        }
    }

    fn from_text(text: &str) -> (r: Result<u64, IntError>) {
        match read_integer(text, false, 0, u64::MAX as i128) {
            Ok(v) => Ok(v as u64),
            Err(e) => Err(e),
        }
    }
}

impl FromText for usize {
    type Err = IntError;

    open spec fn parse_spec(text: Seq<char>) -> Result<usize, IntError> {
        match parse_integer(text, false, 0, usize::MAX as int) {
            Ok(v) => Ok(v as usize),
            Err(e) => Err(e),
        }
    }

    fn from_text(text: &str) -> (r: Result<usize, IntError>) {
        match read_integer(text, false, 0, usize::MAX as i128) {
            Ok(v) => Ok(v as usize),
            Err(e) => Err(e),
        }
    }
}

impl FromText for i8 {
    type Err = IntError;

    open spec fn parse_spec(text: Seq<char>) -> Result<i8, IntError> {
        match parse_integer(text, true, i8::MIN as int, i8::MAX as int) {
            Ok(v) => Ok(v as i8),
            Err(e) => Err(e),
        }
    }

    fn from_text(text: &str) -> (r: Result<i8, IntError>) {
        match read_integer(text, true, i8::MIN as i128, i8::MAX as i128) {
            Ok(v) => Ok(v as i8),
            Err(e) => Err(e),
        }
    }
}

impl FromText for i16 {
    type Err = IntError;

    open spec fn parse_spec(text: Seq<char>) -> Result<i16, IntError> {
        match parse_integer(text, true, i16::MIN as int, i16::MAX as int) {
            Ok(v) => Ok(v as i16),
            Err(e) => Err(e),
        }
    }

    fn from_text(text: &str) -> (r: Result<i16, IntError>) {
        match read_integer(text, true, i16::MIN as i128, i16::MAX as i128) {
            Ok(v) => Ok(v as i16),
            Err(e) => Err(e),
        }
    }
}

impl FromText for i32 {
    type Err = IntError;

    open spec fn parse_spec(text: Seq<char>) -> Result<i32, IntError> {
        match parse_integer(text, true, i32::MIN as int, i32::MAX as int) {
            Ok(v) => Ok(v as i32),
            Err(e) => Err(e),
        }
    }

    fn from_text(text: &str) -> (r: Result<i32, IntError>) {
        match read_integer(text, true, i32::MIN as i128, i32::MAX as i128) {
            Ok(v) => Ok(v as i32),
            Err(e) => Err(e),
        }
    }
}

impl FromText for i64 {
    type Err = IntError;

    open spec fn parse_spec(text: Seq<char>) -> Result<i64, IntError> {
        match parse_integer(text, true, i64::MIN as int, i64::MAX as int) {
            Ok(v) => Ok(v as i64),
            Err(e) => Err(e),
        }
    }

    fn from_text(text: &str) -> (r: Result<i64, IntError>) {
        match read_integer(text, true, i64::MIN as i128, i64::MAX as i128) {
            Ok(v) => Ok(v as i64),
            Err(e) => Err(e),
        }
    }
}

impl FromText for isize {
    type Err = IntError;

    open spec fn parse_spec(text: Seq<char>) -> Result<isize, IntError> {
        match parse_integer(text, true, isize::MIN as int, isize::MAX as int) {
            Ok(v) => Ok(v as isize),
            Err(e) => Err(e),
        }
    }

    fn from_text(text: &str) -> (r: Result<isize, IntError>) {
        match read_integer(text, true, isize::MIN as i128, isize::MAX as i128) {
            Ok(v) => Ok(v as isize),
            Err(e) => Err(e),
        }
    }
}

} // verus!
