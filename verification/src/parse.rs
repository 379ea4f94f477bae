//! Parsers for the textual inputs the fan curve is fed from: a
//! millidegree-Celsius temperature reading and a percentage argument.

use vstd::prelude::*;
use vstd::arithmetic::div_mod::lemma_div_is_ordered;
use vstd::string::StringSliceAdditionalSpecFns;

verus! {

/// A byte is an ASCII decimal digit.
pub open spec fn is_digit(b: u8) -> bool {
    48 <= b <= 57
}

/// Every byte of the sequence is an ASCII decimal digit.
pub open spec fn all_digits(s: Seq<u8>) -> bool {
    forall|i: int| 0 <= i < s.len() ==> is_digit(s[i])
}

/// Numeric value of a digit sequence, most significant digit first.
pub open spec fn dec_value(s: Seq<u8>) -> int
    recommends
        all_digits(s),
    decreases s.len(),
{
    if s.len() == 0 {
        0
    } else {
        dec_value(s.drop_last()) * 10 + (s.last() - 48)
    }
}

/// Appending a digit multiplies the value by ten and adds the digit.
proof fn lemma_dec_value_snoc(s: Seq<u8>, b: u8)
    ensures
        dec_value(s.push(b)) == dec_value(s) * 10 + (b - 48),
{
    assert(s.push(b).drop_last() =~= s);
}

/// The value of a digit sequence is never negative.
proof fn lemma_dec_value_nonneg(s: Seq<u8>)
    requires
        all_digits(s),
    ensures
        dec_value(s) >= 0,
    decreases s.len(),
{
    if s.len() > 0 {
        assert(all_digits(s.drop_last()));
        lemma_dec_value_nonneg(s.drop_last());
    }
}

/// The index of the first ASCII dot at or after `i`, or the sequence's length
/// if there is none.
pub open spec fn first_dot(b: Seq<u8>, i: int) -> int
    recommends
        0 <= i,
    decreases b.len() - i,
{
    if i >= b.len() {
        i
    } else if b[i] == 46 {
        i
    } else {
        first_dot(b, i + 1)
    }
}

/// Full characterization of `first_dot`: it lands on the first dot at or
/// after `j`, or on the length when no dot follows.
proof fn lemma_first_dot_bounds(b: Seq<u8>, j: int)
    requires
        0 <= j <= b.len(),
    ensures
        j <= first_dot(b, j) <= b.len(),
        first_dot(b, j) < b.len() ==> b[first_dot(b, j)] == 46,
        forall|k: int| #![trigger b[k]] j <= k < first_dot(b, j) ==> b[k] != 46,
    decreases b.len() - j,
{
    if j < b.len() && b[j] != 46 {
        lemma_first_dot_bounds(b, j + 1);
    }
}

/// Length of the sign prefix of a decimal literal: one if it starts with an
/// ASCII plus or minus, zero otherwise.
pub open spec fn sign_len(b: Seq<u8>) -> int {
    if b.len() > 0 && (b[0] == 43 || b[0] == 45) {
        1
    } else {
        0
    }
}

/// The literal carries a leading ASCII minus.
pub open spec fn is_negative(b: Seq<u8>) -> bool {
    b.len() > 0 && b[0] == 45
}

/// Position of the decimal dot, or the text's length if it has none.
pub open spec fn dot_pos(b: Seq<u8>) -> int {
    first_dot(b, sign_len(b))
}

/// The digits before the decimal dot, sign excluded.
pub open spec fn int_digits(b: Seq<u8>) -> Seq<u8>
    recommends
        dot_pos(b) <= b.len(),
{
    b.subrange(sign_len(b), dot_pos(b))
}

/// The digits after the decimal dot; empty if the text has no dot.
pub open spec fn frac_digits(b: Seq<u8>) -> Seq<u8> {
    if dot_pos(b) < b.len() {
        b.subrange(dot_pos(b) + 1, b.len() as int)
    } else {
        Seq::empty()
    }
}

/// The text is a fixed-point decimal literal: an optional sign, then digits
/// with at most one dot among them, at least one digit in all.
pub open spec fn temp_literal_ok(b: Seq<u8>) -> bool {
    &&& all_digits(int_digits(b))
    &&& all_digits(frac_digits(b))
    &&& int_digits(b).len() + frac_digits(b).len() > 0
}

/// The reading's whole millidegrees: the value of the digits before the dot.
/// Digits after the dot are fractions of a millidegree; they are too small
/// ever to move the reading across a rounding boundary between whole degrees,
/// so the parse ignores them.
pub open spec fn temp_millis(b: Seq<u8>) -> int {
    dec_value(int_digits(b))
}

/// Error from parsing a millidegree-Celsius temperature reading.
#[derive(Debug, Clone, Copy, PartialEq, Eq, Structural)]
pub enum TempParseError {
    /// The text is not a fixed-point decimal literal.
    NotANumber,
    /// Rounded to whole degrees, the reading does not fit in a byte.
    OutOfRange,
}

/// What parsing a temperature reading returns: the text's value in
/// millidegrees, divided by a thousand and rounded to the nearest whole
/// degree (ties away from zero), if that lies in the byte range.  A negative
/// reading is in range exactly when it rounds to zero.
pub open spec fn temp_of_text(b: Seq<u8>) -> Result<u8, TempParseError> {
    if !temp_literal_ok(b) {
        Err(TempParseError::NotANumber)
    } else if is_negative(b) {
        if temp_millis(b) < 500 {
            Ok(0u8)
        } else {
            Err(TempParseError::OutOfRange)
        }
    } else {
        if (temp_millis(b) + 500) / 1000 <= 255 {
            Ok(((temp_millis(b) + 500) / 1000) as u8)
        } else {
            Err(TempParseError::OutOfRange)
        }
    }
}

/// The saturating accumulator used while scanning digits: exact below the
/// cap, pinned to the cap once the value reaches it.
spec fn saturates_at(acc: int, v: int, cap: int) -> bool {
    if v < cap {
        acc == v
    } else {
        acc == cap
    }
}

/// Parses a temperature reading, given as millidegree-Celsius text, into
/// whole degrees Celsius in the byte range.
///
/// The text is a fixed-point decimal literal with an optional sign; the
/// reading is divided by a thousand and rounded to the nearest whole degree,
/// ties away from zero.  Readings that round below zero or above 255 are out
/// of range; in particular a negative reading is accepted, as zero, exactly
/// when it rounds to zero.
pub fn parse_temp_string(temp: &str) -> (r: Result<u8, TempParseError>)
    ensures
        r == temp_of_text(temp.spec_bytes()),
{
    let b = temp.as_bytes();
    let len = b.len();
    let ghost bs = temp.spec_bytes();
    let mut pos: usize = 0;
    let mut neg = false;
    if len > 0 && (b[0] == 43 || b[0] == 45) {
        neg = b[0] == 45;
        pos = 1;
    }
    let sign_ofs = pos;
    let ghost start = pos as int;
    assert(start == sign_len(bs));
    assert(neg == is_negative(bs));

    // Scan the digits before the dot, accumulating their value; 255500
    // millidegrees is the first value out of range, so the accumulator
    // saturates there.
    let mut acc: u32 = 0;
    while pos < len && 48 <= b[pos] && b[pos] <= 57
        invariant
            bs == b@,
            len == bs.len(),
            0 <= start <= pos <= len,
            forall|k: int| #![trigger bs[k]] start <= k < pos ==> is_digit(bs[k]),
            saturates_at(acc as int, dec_value(bs.subrange(start, pos as int)), 255500),
        decreases len - pos,
    {
        let d = (b[pos] - 48) as u32;
        proof {
            let prefix = bs.subrange(start, pos as int);
            assert(all_digits(prefix));
            lemma_dec_value_nonneg(prefix);
            assert(bs.subrange(start, pos as int + 1) =~= prefix.push(bs[pos as int]));
            lemma_dec_value_snoc(prefix, bs[pos as int]);
        }
        if acc < 255500 {
            let tmp = acc * 10 + d;
            acc = if tmp < 255500 {
                tmp
            } else {
                255500
            };
        }
        pos = pos + 1;
    }
    let int_end = pos;
    proof {
        lemma_first_dot_bounds(bs, start);
    }

    let mut digit_count = int_end - sign_ofs;
    if pos == len {
        // No dot: the integer digits run to the end of the text.
        proof {
            assert(bs.subrange(start, len as int) =~= int_digits(bs));
        }
        if digit_count == 0 {
            return Err(TempParseError::NotANumber);
        }
    } else if b[pos] == 46 {
        // A dot: scan the digits after it.
        proof {
            assert(dot_pos(bs) == int_end as int) by {
                if dot_pos(bs) < int_end as int {
                    assert(is_digit(bs[dot_pos(bs)]));
                }
            }
            assert(bs.subrange(start, int_end as int) =~= int_digits(bs));
        }
        pos = pos + 1;
        let frac_start = pos;
        while pos < len && 48 <= b[pos] && b[pos] <= 57
            invariant
                bs == b@,
                len == bs.len(),
                frac_start <= pos <= len,
                forall|k: int| #![trigger bs[k]] frac_start <= k < pos ==> is_digit(bs[k]),
            decreases len - pos,
        {
            pos = pos + 1;
        }
        if pos < len {
            // Something other than a digit follows the fraction.
            proof {
                assert(frac_digits(bs)[pos - frac_start] == bs[pos as int]);
            }
            return Err(TempParseError::NotANumber);
        }
        proof {
            assert(frac_digits(bs) =~= bs.subrange(frac_start as int, len as int));
        }
        digit_count = digit_count + (pos - frac_start);
        if digit_count == 0 {
            return Err(TempParseError::NotANumber);
        }
    } else {
        // The integer digits stop at a byte that is neither digit nor dot.
        proof {
            assert(dot_pos(bs) > int_end as int) by {
                if dot_pos(bs) < int_end as int {
                    assert(is_digit(bs[dot_pos(bs)]));
                }
            }
            assert(int_digits(bs)[int_end - start] == bs[int_end as int]);
        }
        return Err(TempParseError::NotANumber);
    }

    // The literal is well-formed; decide from the accumulated millidegrees.
    proof {
        lemma_dec_value_nonneg(int_digits(bs));
        if temp_millis(bs) >= 255500 {
            lemma_div_is_ordered(256000, temp_millis(bs) + 500, 1000);
        } else {
            lemma_div_is_ordered(temp_millis(bs) + 500, 255999, 1000);
        }
    }
    if neg {
        if acc < 500 {
            Ok(0)
        } else {
            Err(TempParseError::OutOfRange)
        }
    } else {
        if acc < 255500 {
            Ok(((acc + 500) / 1000) as u8)
        } else {
            Err(TempParseError::OutOfRange)
        }
    }
}

/// Error from parsing a percentage argument.
#[derive(Debug, Clone, Copy, PartialEq, Eq, Structural)]
pub enum PercentError {
    /// The text is not an unsigned decimal number that fits the machine.
    NotANumber,
    /// The number lies outside the accepted percentage range of 1 to 100.
    OutOfRange,
}

/// The digits of an unsigned decimal literal: everything after an optional
/// leading ASCII plus.
pub open spec fn percent_digits(b: Seq<u8>) -> Seq<u8> {
    if b.len() > 0 && b[0] == 43 {
        b.drop_first()
    } else {
        b
    }
}

/// What parsing a percentage argument returns: the text's value when it is an
/// unsigned decimal literal no wider than the machine's word and lies in the
/// range 1 to 100; which of the two checks failed otherwise.
pub open spec fn percent_of_text(b: Seq<u8>) -> Result<u8, PercentError> {
    let d = percent_digits(b);
    if d.len() == 0 || !all_digits(d) || dec_value(d) > usize::MAX {
        Err(PercentError::NotANumber)
    } else if dec_value(d) == 0 || dec_value(d) > 100 {
        Err(PercentError::OutOfRange)
    } else {
        Ok(dec_value(d) as u8)
    }
}

/// Parses a percentage argument: an unsigned decimal number, as wide as the
/// machine's word at most, in the range 1 to 100.
pub fn percentage_in_range(s: &str) -> (r: Result<u8, PercentError>)
    ensures
        r == percent_of_text(s.spec_bytes()),
{
    let b = s.as_bytes();
    let len = b.len();
    let ghost bs = s.spec_bytes();
    let mut pos: usize = 0;
    if len > 0 && b[0] == 43 {
        pos = 1;
    }
    let ghost start = pos as int;
    proof {
        assert(percent_digits(bs) =~= bs.subrange(start, len as int));
    }
    if pos == len {
        return Err(PercentError::NotANumber);
    }

    // Scan the digits, accumulating their value; the accumulator saturates
    // one past the widest machine word, where the parse is already owed a
    // failure whatever follows.
    let mut acc: u128 = 0;
    while pos < len
        invariant
            bs == b@,
            bs == s.spec_bytes(),
            len == bs.len(),
            start == (if bs.len() > 0 && bs[0] == 43 {
                1int
            } else {
                0int
            }),
            0 <= start <= pos <= len,
            forall|k: int| #![trigger bs[k]] start <= k < pos ==> is_digit(bs[k]),
            saturates_at(
                acc as int,
                dec_value(bs.subrange(start, pos as int)),
                0x1_0000_0000_0000_0000,
            ),
        decreases len - pos,
    {
        let c = b[pos];
        if c < 48 || c > 57 {
            proof {
                assert(percent_digits(bs) =~= bs.subrange(start, len as int));
                assert(percent_digits(bs)[pos - start] == bs[pos as int]);
            }
            return Err(PercentError::NotANumber);
        }
        let d = (c - 48) as u128;
        proof {
            let prefix = bs.subrange(start, pos as int);
            assert(all_digits(prefix));
            lemma_dec_value_nonneg(prefix);
            assert(bs.subrange(start, pos as int + 1) =~= prefix.push(bs[pos as int]));
            lemma_dec_value_snoc(prefix, bs[pos as int]);
        }
        if acc < 0x1_0000_0000_0000_0000 {
            let tmp = acc * 10 + d;
            acc = if tmp < 0x1_0000_0000_0000_0000 {
                tmp
            } else {
                0x1_0000_0000_0000_0000
            };
        }
        pos = pos + 1;
    }

    if acc > usize::MAX as u128 {
        Err(PercentError::NotANumber)
    } else if acc == 0 || acc > 100 {
        Err(PercentError::OutOfRange)
    } else {
        Ok(acc as u8)
    }
}

} // verus!
