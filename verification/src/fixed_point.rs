//! Fixed-point decimals with one fractional digit, held as the value times ten.
//!
//! The text form is an optional minus sign, one or more integer digits, a
//! decimal point and exactly one fractional digit: `-3.7` stands for `-37`.

use vstd::prelude::*;

verus! {

/// The sign of a negative value.
pub const MINUS: u8 = 0x2d;

/// The decimal point.
pub const POINT: u8 = 0x2e;

/// The digit zero; the other digits follow it.
pub const ZERO: u8 = 0x30;

/// Whether a byte is a decimal digit.
pub open spec fn is_digit(b: u8) -> bool {
    0x30 <= b <= 0x39
}

/// The number that a digit's byte stands for.
pub open spec fn digit_value(b: u8) -> int {
    b - 0x30
}

/// Whether every byte is a decimal digit.
pub open spec fn all_digits(s: Seq<u8>) -> bool {
    forall|i: int| 0 <= i < s.len() ==> is_digit(#[trigger] s[i])
}

/// The number that a run of decimal digits denotes, most significant first.
pub open spec fn digits_value(s: Seq<u8>) -> int
    decreases s.len(),
{
    if s.len() == 0 {
        0
    } else {
        10 * digits_value(s.drop_last()) + digit_value(s.last())
    }
}

/// Whether a text starts with the minus sign.
pub open spec fn is_negative(s: Seq<u8>) -> bool {
    s.len() > 0 && s[0] == MINUS
}

/// The number of bytes that the sign takes: one or none.
pub open spec fn sign_len(s: Seq<u8>) -> int {
    if is_negative(s) {
        1
    } else {
        0
    }
}

/// The integer digits of a text: what stands between the sign and the point.
pub open spec fn integer_digits(s: Seq<u8>) -> Seq<u8> {
    s.subrange(sign_len(s), s.len() - 2)
}

/// The grammar: `-`? digit+ `.` digit
pub open spec fn well_formed(s: Seq<u8>) -> bool {
    &&& s.len() >= sign_len(s) + 3
    &&& all_digits(integer_digits(s))
    &&& s[s.len() - 2] == POINT
    &&& is_digit(s[s.len() - 1])
}

/// The value times ten without its sign: the integer digits, then the
/// fractional digit.
pub open spec fn magnitude(s: Seq<u8>) -> int {
    10 * digits_value(integer_digits(s)) + digit_value(s[s.len() - 1])
}

/// The value times ten that a well-formed text denotes.
pub open spec fn scaled_value(s: Seq<u8>) -> int {
    if is_negative(s) {
        -magnitude(s)
    } else {
        magnitude(s)
    }
}

/// A text that is well formed and whose scaled value fits the 16-bit range.
pub open spec fn parses(s: Seq<u8>) -> bool {
    well_formed(s) && i16::MIN <= scaled_value(s) <= i16::MAX
}

/// A prefix of a digit run denotes no more than the whole run.
pub proof fn lemma_digits_prefix(s: Seq<u8>, k: int)
    requires
        all_digits(s),
        0 <= k <= s.len(),
    ensures
        0 <= digits_value(s.subrange(0, k)) <= digits_value(s),
    decreases s.len() - k,
{
    if k == s.len() {
        assert(s.subrange(0, k) =~= s);
        lemma_digits_nonnegative(s);
    } else {
        lemma_digits_prefix(s, k + 1);
        let longer = s.subrange(0, k + 1);
        assert(longer.drop_last() =~= s.subrange(0, k));
        assert(is_digit(s[k]));
        assert(longer.last() == s[k]);
        lemma_digits_nonnegative(s.subrange(0, k));
    }
}

/// A digit run denotes no negative number.
pub proof fn lemma_digits_nonnegative(s: Seq<u8>)
    requires
        all_digits(s),
    ensures
        digits_value(s) >= 0,
    decreases s.len(),
{
    if s.len() > 0 {
        lemma_digits_nonnegative(s.drop_last());
        assert(is_digit(s[s.len() - 1]));
    }
}

/// Reads a well-formed text whose value fits: the sign from the first byte,
/// then the integer digits, then the fractional digit folded in.
pub fn parse_string_to_int(bytes: &[u8]) -> (value: i16)
    requires
        parses(bytes@),
    ensures
        value == scaled_value(bytes@),
{
    let byte_len: usize = bytes.len();
    let negative: bool = bytes[0] == MINUS;
    let start: usize = if negative {
        1
    } else {
        0
    };
    let max_index: usize = byte_len - 2;
    let ghost digits = integer_digits(bytes@);
    let mut int_part: i32 = 0;
    let mut index: usize = start;
    while index < max_index
        invariant
            parses(bytes@),
            start == sign_len(bytes@),
            max_index == bytes@.len() - 2,
            digits == integer_digits(bytes@),
            start <= index <= max_index,
            int_part == digits_value(digits.subrange(0, index - start)),
            0 <= int_part <= 3276,
        decreases max_index - index,
    {
        proof {
            let longer = digits.subrange(0, index - start + 1);
            assert(longer.drop_last() =~= digits.subrange(0, index - start));
            assert(longer.last() == bytes@[index as int]);
            assert(is_digit(digits[index - start]));
            lemma_digits_prefix(digits, index - start + 1);
        }
        int_part = int_part * 10 + (bytes[index] - ZERO) as i32;
        index += 1;
    }
    proof {
        assert(digits.subrange(0, max_index - start) =~= digits);
    }
    let frac_part: i32 = (bytes[byte_len - 1] - ZERO) as i32;
    let total: i32 = int_part * 10 + frac_part;
    if negative {
        (-total) as i16
    } else {
        total as i16
    }
}

/// Reads a text of any shape: the value where the text is well formed and fits
/// the 16-bit range, and nothing where it does not.
pub fn parse_checked(bytes: &[u8]) -> (value: Option<i16>)
    ensures
        value is Some <==> parses(bytes@),
        value matches Some(v) ==> v == scaled_value(bytes@),
{
    let byte_len: usize = bytes.len();
    if byte_len < 3 {
        return None;
    }
    let negative: bool = bytes[0] == MINUS;
    let start: usize = if negative {
        1
    } else {
        0
    };
    if byte_len < start + 3 {
        return None;
    }
    let last: u8 = bytes[byte_len - 1];
    if bytes[byte_len - 2] != POINT || last < ZERO || last > 0x39 {
        return None;
    }
    let max_index: usize = byte_len - 2;
    let ghost digits = integer_digits(bytes@);
    let mut int_part: i32 = 0;
    let mut index: usize = start;
    while index < max_index
        invariant
            start == sign_len(bytes@),
            max_index == bytes@.len() - 2,
            digits == integer_digits(bytes@),
            start <= index <= max_index,
            all_digits(digits.subrange(0, index - start)),
            int_part == digits_value(digits.subrange(0, index - start)),
            0 <= int_part <= 3276,
        decreases max_index - index,
    {
        let byte: u8 = bytes[index];
        if byte < ZERO || byte > 0x39 {
            proof {
                assert(digits[index - start] == byte);
            }
            return None;
        }
        let ghost shorter = digits.subrange(0, index - start);
        let ghost longer = digits.subrange(0, index - start + 1);
        proof {
            assert(longer.drop_last() =~= shorter);
            assert(longer.last() == byte);
            assert forall|i: int| 0 <= i < longer.len() implies is_digit(#[trigger] longer[i]) by {
                if i < shorter.len() {
                    assert(longer[i] == shorter[i]);
                }
            }
        }
        let next: i32 = int_part * 10 + (byte - ZERO) as i32;
        if next > 3276 {
            proof {
                // Every further digit only makes the magnitude larger.
                if all_digits(digits) {
                    assert(digits.subrange(0, index - start + 1) == longer);
                    lemma_digits_prefix(digits, index - start + 1);
                }
            }
            return None;
        }
        int_part = next;
        index += 1;
    }
    proof {
        assert(digits.subrange(0, max_index - start) =~= digits);
    }
    let total: i32 = int_part * 10 + (last - ZERO) as i32;
    if negative {
        if total > 32768 {
            None
        } else {
            Some((-total) as i16)
        }
    } else {
        if total > 32767 {
            None
        } else {
            Some(total as i16)
        }
    }
}

/// The decimal digits of a number, most significant first, without leading
/// zeros.
pub open spec fn decimal_digits(n: nat) -> Seq<u8>
    decreases n,
{
    if n < 10 {
        seq![(0x30 + n) as u8]
    } else {
        decimal_digits(n / 10).push((0x30 + n % 10) as u8)
    }
}

/// The text of a scaled value: its sign, its tenths' integer part, a point
/// and one fractional digit.
pub open spec fn fixed_point_text(scaled: int) -> Seq<u8> {
    let magnitude = if scaled < 0 {
        -scaled
    } else {
        scaled
    };
    let sign = if scaled < 0 {
        seq![MINUS]
    } else {
        Seq::<u8>::empty()
    };
    sign + decimal_digits((magnitude / 10) as nat) + seq![POINT, (0x30 + magnitude % 10) as u8]
}

/// The digits written for a number denote that number.
pub proof fn lemma_decimal_digits(n: nat)
    ensures
        decimal_digits(n).len() >= 1,
        all_digits(decimal_digits(n)),
        digits_value(decimal_digits(n)) == n,
    decreases n,
{
    let text = decimal_digits(n);
    if n < 10 {
        assert(text.drop_last() =~= Seq::<u8>::empty());
        assert(digits_value(text.drop_last()) == 0);
    } else {
        lemma_decimal_digits(n / 10);
        assert(text.drop_last() =~= decimal_digits(n / 10));
    }
}

/// Writing a scaled value and reading the text back gives the value again.
pub proof fn lemma_format_then_parse(scaled: int)
    ensures
        well_formed(fixed_point_text(scaled)),
        scaled_value(fixed_point_text(scaled)) == scaled,
{
    let magnitude = if scaled < 0 {
        -scaled
    } else {
        scaled
    };
    let whole = decimal_digits((magnitude / 10) as nat);
    let text = fixed_point_text(scaled);
    lemma_decimal_digits((magnitude / 10) as nat);
    assert(is_digit(whole[0]));
    if scaled < 0 {
        assert(text[0] == MINUS);
        assert(integer_digits(text) =~= whole);
    } else {
        assert(text[0] == whole[0]);
        assert(integer_digits(text) =~= whole);
    }
}

/// Appends the decimal digits of `n` to `out`.
pub fn push_decimal(out: &mut Vec<u8>, n: u64)
    ensures
        final(out)@ == old(out)@ + decimal_digits(n as nat),
    decreases n,
{
    if n >= 10 {
        push_decimal(out, n / 10);
    }
    out.push(ZERO + (n % 10) as u8);
    proof {
        assert(out@ =~= old(out)@ + decimal_digits(n as nat));
    }
}

/// Appends the text of a scaled value to `out`.
pub fn push_fixed_point(out: &mut Vec<u8>, scaled: i16)
    ensures
        final(out)@ == old(out)@ + fixed_point_text(scaled as int),
{
    let wide: i32 = scaled as i32;
    let magnitude: u64 = if wide < 0 {
        (-wide) as u64
    } else {
        wide as u64
    };
    if wide < 0 {
        out.push(MINUS);
    }
    push_decimal(out, magnitude / 10);
    out.push(POINT);
    out.push(ZERO + (magnitude % 10) as u8);
    proof {
        assert(out@ =~= old(out)@ + fixed_point_text(scaled as int));
    }
}

/// The text of a scaled value.
pub fn format_fixed_point(scaled: i16) -> (text: Vec<u8>)
    ensures
        text@ == fixed_point_text(scaled as int),
        parses(text@),
        scaled_value(text@) == scaled,
{
    let mut text: Vec<u8> = Vec::new();
    push_fixed_point(&mut text, scaled);
    proof {
        assert(text@ =~= fixed_point_text(scaled as int));
        lemma_format_then_parse(scaled as int);
    }
    text
}

} // verus!
